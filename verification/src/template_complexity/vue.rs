//! Synthetic `<template>` complexity for Vue single-file components.
//!
//! Scores Vue template control flow (`v-if` / `v-else-if` / `v-for` /
//! `v-show`, including `<template v-for>`) plus bound-directive expressions and
//! `{{ }}` interpolations with the shared expression engine. `<script>` /
//! `<style>` blocks and `<!-- -->` comments are masked out first (replaced by
//! equal-length runs of spaces, so byte offsets stay accurate). Cognitive
//! nesting tracks control-flow depth: only an element bearing a control-flow
//! directive opens a nesting level for its subtree.

use vstd::prelude::*;
use vstd::string::StringSliceAdditionalSpecFns;

use crate::regex_scan::{regex_find_iter, regex_find_spans};
use crate::template_complexity::engine::{
    attribute_value, fits, find_tag_end, lemma_quote_end_from_advances, lemma_tag_end_from_bounds,
    name_stop, quote2, quote_end, read_attribute_value, sat, skip_whitespace, tag_end_from,
    unquoted_end, with_control_flow, with_expression, ws_run_end, ScanError, TemplateComplexity,
};
use crate::text;
use crate::text::{
    ascii_ws, has2, lower_seq, trimmed_end, width_of, BANG, COLON, EQ, GT, LBRACE, LT, QUESTION,
    RBRACE, SLASH, SPACE, AT,
};

verus! {

broadcast use crate::text::lemma_width_of_range;

/// Masks `<script>` / `<style>` blocks and HTML comments.
pub const MASK_PATTERN: &'static str = "(?is)<script\\b(?:[^>\"']|\"[^\"]*\"|'[^']*')*>[\\s\\S]*?</script\\s*>|<style\\b(?:[^>\"']|\"[^\"]*\"|'[^']*')*>[\\s\\S]*?</style\\s*>|<!--[\\s\\S]*?-->";

/// Scanner state: accumulated complexity, control-flow nesting, and one entry
/// per open element recording whether it opened a nesting level.
pub type VueState = (TemplateComplexity, u16, Seq<bool>);

// ---------------------------------------------------------------------------
// Specification
// ---------------------------------------------------------------------------

pub open spec fn is_control_flow_name(n: Seq<u8>) -> bool {
    n == "v-if".spec_bytes() || n == "v-else-if".spec_bytes() || n == "v-for".spec_bytes() || n
        == "v-show".spec_bytes()
}

pub open spec fn has_prefix(n: Seq<u8>, p: Seq<u8>) -> bool {
    p.len() <= n.len() && n.subrange(0, p.len() as int) == p
}

pub open spec fn is_bound_name(n: Seq<u8>) -> bool {
    (n.len() >= 1 && (n[0] == COLON || n[0] == AT)) || has_prefix(n, "v-bind".spec_bytes())
        || has_prefix(n, "v-on".spec_bytes()) || has_prefix(n, "v-model".spec_bytes()) || n
        == "v-html".spec_bytes() || n == "v-text".spec_bytes() || n == "v-memo".spec_bytes()
}

pub open spec fn ci_eq(t: Seq<u8>, lit: Seq<u8>) -> bool {
    lower_seq(t) == lower_seq(lit)
}

/// An HTML element that never has a closing tag (case-insensitive).
pub open spec fn is_void_name(t: Seq<u8>) -> bool {
    ci_eq(t, "area".spec_bytes()) || ci_eq(t, "base".spec_bytes()) || ci_eq(t, "br".spec_bytes())
        || ci_eq(t, "col".spec_bytes()) || ci_eq(t, "embed".spec_bytes()) || ci_eq(
        t,
        "hr".spec_bytes(),
    ) || ci_eq(t, "img".spec_bytes()) || ci_eq(t, "input".spec_bytes()) || ci_eq(
        t,
        "link".spec_bytes(),
    ) || ci_eq(t, "meta".spec_bytes()) || ci_eq(t, "param".spec_bytes()) || ci_eq(
        t,
        "source".spec_bytes(),
    ) || ci_eq(t, "track".spec_bytes()) || ci_eq(t, "wbr".spec_bytes())
}

/// Ends an attribute name.
pub open spec fn attr_name_stop(b: u8) -> bool {
    ascii_ws(b) || b == EQ || b == SLASH || b == GT
}

/// End of the run starting at `o` and bounded by `te` that holds no byte
/// satisfying `attr_name_stop`.
pub open spec fn attr_name_end(s: Seq<u8>, o: int, te: int) -> int
    decreases if o < te { te - o } else { 0 },
{
    if o >= te || o < 0 || o >= s.len() || attr_name_stop(s[o]) {
        o
    } else {
        attr_name_end(s, o + 1, te)
    }
}

/// End of the tag-name run starting at `o`, bounded by `te`.
pub open spec fn tag_name_run_end(s: Seq<u8>, o: int, te: int) -> int
    decreases if o < te { te - o } else { 0 },
{
    if o >= te || o < 0 || o >= s.len() || name_stop(s[o]) {
        o
    } else {
        tag_name_run_end(s, o + 1, te)
    }
}

pub proof fn lemma_attr_name_end(s: Seq<u8>, o: int, te: int)
    ensures
        o <= attr_name_end(s, o, te),
        0 <= o < te <= s.len() && !attr_name_stop(s[o]) ==> o < attr_name_end(s, o, te),
    decreases if o < te { te - o } else { 0 },
{
    if !(o >= te || o < 0 || o >= s.len() || attr_name_stop(s[o])) {
        lemma_attr_name_end(s, o + 1, te);
    }
}

pub proof fn lemma_ws_run_end(s: Seq<u8>, off: int)
    ensures
        off <= ws_run_end(s, off),
        0 <= off <= s.len() ==> ws_run_end(s, off) <= s.len(),
        0 <= off ==> ws_run_end(s, off) >= s.len() || !ascii_ws(s[ws_run_end(s, off)]),
    decreases if off < s.len() { s.len() - off } else { 0 },
{
    if !(off >= s.len() || off < 0 || !ascii_ws(s[off])) {
        lemma_ws_run_end(s, off + 1);
    }
}

pub proof fn lemma_unquoted_end(s: Seq<u8>, e: int)
    ensures
        e <= unquoted_end(s, e),
        0 <= e <= s.len() ==> unquoted_end(s, e) <= s.len(),
    decreases if e < s.len() { s.len() - e } else { 0 },
{
    if !(e >= s.len() || e < 0 || name_stop(s[e])) {
        lemma_unquoted_end(s, e + 1);
    }
}

pub proof fn lemma_attribute_value(s: Seq<u8>, off: int)
    ensures
        attribute_value(s, off) matches Some((a, b, c)) ==> off <= a <= b <= c <= s.len(),
{
    if 0 <= off < s.len() {
        if quote2(s[off]) {
            lemma_quote_end_from_advances(s, s.len() as int, s[off], off + 1);
        } else {
            lemma_unquoted_end(s, off);
        }
    }
}

/// A valueless attribute: only a bare `v-else` matters (cognitive +1).
pub open spec fn valueless_step(name: Seq<u8>, st: VueState) -> (bool, VueState) {
    if name == "v-else".spec_bytes() {
        (true, (TemplateComplexity { cognitive: sat(st.0.cognitive, 1), ..st.0 }, st.1, st.2))
    } else {
        (false, st)
    }
}

/// A valued attribute `name="s[vs..ve)"`: control-flow directives score the
/// construct and the expression; other bound directives score the expression.
pub open spec fn valued_step(s: Seq<u8>, name: Seq<u8>, vs: int, ve: int, st: VueState) -> Option<(bool, VueState)> {
    if is_control_flow_name(name) {
        let tc1 = with_control_flow(st.0, st.1);
        let (tc2, ok) = with_expression(tc1, s, vs, ve, vs, st.1);
        if ok {
            Some((true, (tc2, st.1, st.2)))
        } else {
            None
        }
    } else if is_bound_name(name) {
        let (tc2, ok) = with_expression(st.0, s, vs, ve, vs, st.1);
        if ok {
            Some((false, (tc2, st.1, st.2)))
        } else {
            None
        }
    } else {
        Some((false, st))
    }
}

/// The control-flow directives are `v-if`, `v-else-if`, `v-for` and
/// `v-show`: on any attribute value they score alike (the construct plus
/// the expression), they alone mark the element as control flow, and every
/// other attribute at most scores its expression.
pub proof fn lemma_control_flow_directives(s: Seq<u8>, n: Seq<u8>, vs: int, ve: int, st: VueState)
    ensures
        valued_step(s, "v-show".spec_bytes(), vs, ve, st) == valued_step(s, "v-if".spec_bytes(), vs, ve, st),
        valued_step(s, "v-for".spec_bytes(), vs, ve, st) == valued_step(s, "v-if".spec_bytes(), vs, ve, st),
        valued_step(s, "v-else-if".spec_bytes(), vs, ve, st) == valued_step(s, "v-if".spec_bytes(), vs, ve, st),
        valued_step(s, "v-if".spec_bytes(), vs, ve, st) matches Some((cf, st2)) ==> cf && (st2.0.cyclomatic
            >= st.0.cyclomatic + 1 || st2.0.cyclomatic == u16::MAX),
        (valued_step(s, n, vs, ve, st) matches Some((cf, _)) && cf) ==> (n == "v-if".spec_bytes() || n
            == "v-else-if".spec_bytes() || n == "v-for".spec_bytes() || n == "v-show".spec_bytes()),
{
}

/// Scan the attributes of a tag from `off` up to its `>` at `te`; returns
/// whether any control-flow directive was seen and the resulting state.
pub open spec fn attributes_from(s: Seq<u8>, off: int, te: int, st: VueState, has: bool) -> Option<(bool, VueState)>
    decreases if off < te { te - off } else { 0 },
{
    if off >= te || off < 0 || te >= s.len() {
        Some((has, st))
    } else {
        let o = ws_run_end(s, off);
        if o >= te || s[o] == SLASH || s[o] == GT {
            Some((has, st))
        } else {
            let e = attr_name_end(s, o, te);
            let o2 = ws_run_end(s, e);
            let name = s.subrange(o, e);
            if o2 >= te || s[o2] != EQ {
                let (cf, st2) = valueless_step(name, st);
                proof {
                    lemma_ws_run_end(s, off);
                    lemma_attr_name_end(s, o, te);
                    lemma_ws_run_end(s, e);
                    if e == o {
                        lemma_ws_run_end(s, o);
                    }
                }
                attributes_from(s, o2, te, st2, has || cf)
            } else {
                let o3 = ws_run_end(s, o2 + 1);
                match attribute_value(s, o3) {
                    None => None,
                    Some((vs, ve, nx)) => match valued_step(s, name, vs, ve, st) {
                        None => None,
                        Some((cf, st2)) => {
                            proof {
                                lemma_ws_run_end(s, off);
                                lemma_attr_name_end(s, o, te);
                                lemma_ws_run_end(s, e);
                                lemma_ws_run_end(s, o2 + 1);
                                lemma_attribute_value(s, o3);
                            }
                            attributes_from(s, nx, te, st2, has || cf)
                        },
                    },
                }
            }
        }
    }
}

/// The tag at `off` (a `<`): the offset just past its `>` and the state after
/// it.
pub open spec fn element_step(s: Seq<u8>, off: int, st: VueState) -> Option<(int, VueState)> {
    match tag_end_from(s, off + 1) {
        None => None,
        Some(te) => {
            let len = s.len() as int;
            if has2(s, off, len, LT, SLASH) {
                if st.2.len() > 0 {
                    let top = st.2.last();
                    let n = if top {
                        if st.1 == 0 {
                            0u16
                        } else {
                            (st.1 - 1) as u16
                        }
                    } else {
                        st.1
                    };
                    Some((te + 1, (st.0, n, st.2.drop_last())))
                } else {
                    Some((te + 1, st))
                }
            } else if has2(s, off, len, LT, BANG) || has2(s, off, len, LT, QUESTION) {
                Some((te + 1, st))
            } else {
                let e = trimmed_end(s, 0, te);
                let self_closing = e > 0 && s[e - 1] == SLASH;
                let tag_name = s.subrange(off + 1, unquoted_end(s, off + 1));
                match attributes_from(s, tag_name_run_end(s, off + 1, te), te, st, false) {
                    None => None,
                    Some((cf, st2)) => if !self_closing && !is_void_name(tag_name) {
                        Some(
                            (
                                te + 1,
                                (st2.0, if cf {
                                    sat(st2.1, 1)
                                } else {
                                    st2.1
                                }, st2.2.push(cf)),
                            ),
                        )
                    } else {
                        Some((te + 1, st2))
                    },
                }
            }
        },
    }
}

pub proof fn lemma_element_step_advances(s: Seq<u8>, off: int, st: VueState)
    ensures
        element_step(s, off, st) matches Some((n, _)) ==> off + 1 < n <= s.len(),
{
    lemma_tag_end_from_bounds(s, off + 1);
}

/// First offset `j >= i` where the two bytes `a b` start.
pub open spec fn pair_from(s: Seq<u8>, i: int, a: u8, b: u8) -> Option<int>
    decreases if i < s.len() { s.len() - i } else { 0 },
{
    if i < 0 || i + 1 >= s.len() {
        None
    } else if s[i] == a && s[i + 1] == b {
        Some(i)
    } else {
        pair_from(s, i + 1, a, b)
    }
}

pub proof fn lemma_pair_from(s: Seq<u8>, i: int, a: u8, b: u8)
    ensures
        pair_from(s, i, a, b) matches Some(j) ==> i <= j && j + 1 < s.len(),
    decreases if i < s.len() { s.len() - i } else { 0 },
{
    if !(i < 0 || i + 1 >= s.len()) && !(s[i] == a && s[i + 1] == b) {
        lemma_pair_from(s, i + 1, a, b);
    }
}

/// The scan of the masked template `s` from `off` in state `st`; `None` on
/// malformed markup.
pub open spec fn vue_scan_from(s: Seq<u8>, off: int, st: VueState) -> Option<TemplateComplexity>
    decreases if off < s.len() { s.len() - off } else { 0 },
{
    if off >= s.len() || off < 0 {
        Some(st.0)
    } else if has2(s, off, s.len() as int, LBRACE, LBRACE) {
        match pair_from(s, off + 2, RBRACE, RBRACE) {
            None => None,
            Some(end) => {
                let (tc2, ok) = with_expression(st.0, s, off + 2, end, off + 2, st.1);
                if ok {
                    proof {
                        lemma_pair_from(s, off + 2, RBRACE, RBRACE);
                    }
                    vue_scan_from(s, end + 2, (tc2, st.1, st.2))
                } else {
                    None
                }
            },
        }
    } else if s[off] == LT {
        match element_step(s, off, st) {
            None => None,
            Some((n, st2)) => {
                proof {
                    lemma_element_step_advances(s, off, st);
                }
                vue_scan_from(s, n, st2)
            },
        }
    } else {
        vue_scan_from(s, off + width_of(s[off]), st)
    }
}

/// Complexity of the masked template `s`, from the baseline.
pub open spec fn vue_scan(s: Seq<u8>) -> Option<TemplateComplexity> {
    vue_scan_from(
        s,
        0,
        (TemplateComplexity { cyclomatic: 1, cognitive: 0, first_offset: None }, 0u16, Seq::empty()),
    )
}

pub open spec fn in_span(sp: (usize, usize), i: int) -> bool {
    sp.0 <= i < sp.1
}

/// Byte `i` lies inside one of `spans`.
pub open spec fn covered(spans: Seq<(usize, usize)>, i: int) -> bool {
    exists|k: int| 0 <= k < spans.len() && #[trigger] in_span(spans[k], i)
}

/// `s` with every byte inside one of `spans` replaced by a space.
pub open spec fn masked(s: Seq<u8>, spans: Seq<(usize, usize)>) -> Seq<u8> {
    Seq::new(
        s.len(),
        |i: int|
            if covered(spans, i) {
                SPACE
            } else {
                s[i]
            },
    )
}

pub open spec fn spans_or_empty(o: Option<Seq<(usize, usize)>>) -> Seq<(usize, usize)> {
    match o {
        Some(v) => v,
        None => Seq::empty(),
    }
}

/// The source with its `<script>` / `<style>` blocks and comments blanked.
pub open spec fn masked_template(source: &str) -> Seq<u8> {
    masked(source.spec_bytes(), spans_or_empty(regex_find_spans(MASK_PATTERN@, source@)))
}

/// A template is trivial at the baseline: one path, no cognitive weight.
pub open spec fn is_trivial(tc: TemplateComplexity) -> bool {
    tc.cyclomatic == 1 && tc.cognitive == 0
}

// ---------------------------------------------------------------------------
// Executable scanner
// ---------------------------------------------------------------------------

fn is_control_flow_directive(s: &[u8], lo: usize, hi: usize) -> (r: bool)
    requires
        lo <= hi <= s@.len(),
    ensures
        r == is_control_flow_name(s@.subrange(lo as int, hi as int)),
{
    text::range_eq(s, lo, hi, "v-if".as_bytes()) || text::range_eq(s, lo, hi, "v-else-if".as_bytes())
        || text::range_eq(s, lo, hi, "v-for".as_bytes()) || text::range_eq(
        s,
        lo,
        hi,
        "v-show".as_bytes(),
    )
}

fn starts_with_lit(s: &[u8], lo: usize, hi: usize, lit: &[u8]) -> (r: bool)
    requires
        lo <= hi <= s@.len(),
    ensures
        r == has_prefix(s@.subrange(lo as int, hi as int), lit@),
{
    let r = text::range_starts_with(s, lo, hi, lit);
    assert(lit@.len() <= hi - lo ==> s@.subrange(lo as int, hi as int).subrange(0, lit@.len() as int)
        =~= s@.subrange(lo as int, lo + lit@.len()));
    r
}

fn is_bound_directive(s: &[u8], lo: usize, hi: usize) -> (r: bool)
    requires
        lo <= hi <= s@.len(),
    ensures
        r == is_bound_name(s@.subrange(lo as int, hi as int)),
{
    (hi > lo && (s[lo] == COLON || s[lo] == AT)) || starts_with_lit(s, lo, hi, "v-bind".as_bytes())
        || starts_with_lit(s, lo, hi, "v-on".as_bytes()) || starts_with_lit(
        s,
        lo,
        hi,
        "v-model".as_bytes(),
    ) || text::range_eq(s, lo, hi, "v-html".as_bytes()) || text::range_eq(
        s,
        lo,
        hi,
        "v-text".as_bytes(),
    ) || text::range_eq(s, lo, hi, "v-memo".as_bytes())
}

fn is_void_tag(s: &[u8], lo: usize, hi: usize) -> (r: bool)
    requires
        lo <= hi <= s@.len(),
    ensures
        r == is_void_name(s@.subrange(lo as int, hi as int)),
{
    text::range_eq_ignore_case(s, lo, hi, "area".as_bytes()) || text::range_eq_ignore_case(
        s,
        lo,
        hi,
        "base".as_bytes(),
    ) || text::range_eq_ignore_case(s, lo, hi, "br".as_bytes()) || text::range_eq_ignore_case(
        s,
        lo,
        hi,
        "col".as_bytes(),
    ) || text::range_eq_ignore_case(s, lo, hi, "embed".as_bytes()) || text::range_eq_ignore_case(
        s,
        lo,
        hi,
        "hr".as_bytes(),
    ) || text::range_eq_ignore_case(s, lo, hi, "img".as_bytes()) || text::range_eq_ignore_case(
        s,
        lo,
        hi,
        "input".as_bytes(),
    ) || text::range_eq_ignore_case(s, lo, hi, "link".as_bytes()) || text::range_eq_ignore_case(
        s,
        lo,
        hi,
        "meta".as_bytes(),
    ) || text::range_eq_ignore_case(s, lo, hi, "param".as_bytes()) || text::range_eq_ignore_case(
        s,
        lo,
        hi,
        "source".as_bytes(),
    ) || text::range_eq_ignore_case(s, lo, hi, "track".as_bytes()) || text::range_eq_ignore_case(
        s,
        lo,
        hi,
        "wbr".as_bytes(),
    )
}

/// End of the tag name that follows the `<` at `tag_start`.
fn read_tag_name(s: &[u8], tag_start: usize) -> (r: usize)
    requires
        tag_start < s@.len(),
        fits(s@.len() as int),
    ensures
        r == unquoted_end(s@, tag_start + 1),
        tag_start < r <= s@.len(),
{
    let mut end = tag_start + 1;
    while end < s.len() && !(text::is_ascii_ws(s[end]) || s[end] == SLASH || s[end] == GT)
        invariant
            tag_start < end <= s@.len(),
            unquoted_end(s@, end as int) == unquoted_end(s@, tag_start + 1),
        decreases s@.len() - end,
    {
        end = end + 1;
    }
    end
}

struct VueScanner<'a> {
    source: &'a [u8],
    complexity: TemplateComplexity,
    nesting: u16,
    tag_stack: Vec<bool>,
}

impl<'a> VueScanner<'a> {
    spec fn state(&self) -> VueState {
        (self.complexity, self.nesting, self.tag_stack@)
    }

    fn new(source: &'a [u8]) -> (r: Self)
        ensures
            r.source@ == source@,
            r.state() == (
                TemplateComplexity { cyclomatic: 1, cognitive: 0, first_offset: None },
                0u16,
                Seq::<bool>::empty(),
            ),
    {
        VueScanner {
            source,
            complexity: TemplateComplexity::new(),
            nesting: 0,
            tag_stack: Vec::new(),
        }
    }

    /// First offset at or after `offset` where `}}` starts.
    #[verifier::loop_isolation(false)]
    fn find_required(&self, offset: usize) -> (r: Result<usize, ScanError>)
        ensures
            match r {
                Ok(j) => pair_from(self.source@, offset as int, RBRACE, RBRACE) == Some(j as int),
                Err(_) => pair_from(self.source@, offset as int, RBRACE, RBRACE) is None,
            },
    {
        let s = self.source;
        let mut i = offset;
        while i < s.len() && s.len() - i > 1
            invariant
                offset <= i,
                pair_from(s@, i as int, RBRACE, RBRACE) == pair_from(s@, offset as int, RBRACE, RBRACE),
            decreases s@.len() - i,
        {
            if s[i] == RBRACE && s[i + 1] == RBRACE {
                return Ok(i);
            }
            i = i + 1;
        }
        Err(ScanError)
    }

    /// A valueless attribute: bare `v-else` adds cognitive weight and opens a
    /// nesting level.
    fn scan_valueless_attr(&mut self, name_start: usize, name_end: usize) -> (r: bool)
        requires
            name_start <= name_end <= old(self).source@.len(),
        ensures
            final(self).source == old(self).source,
            (r, final(self).state()) == valueless_step(
                old(self).source@.subrange(name_start as int, name_end as int),
                old(self).state(),
            ),
    {
        if text::range_eq(self.source, name_start, name_end, "v-else".as_bytes()) {
            self.complexity.cognitive = self.complexity.cognitive.saturating_add(1);
            return true;
        }
        false
    }

    /// Score a valued directive; `Ok(true)` for a control-flow directive.
    fn scan_attribute_value(&mut self, name_start: usize, name_end: usize, value_start: usize, value_end: usize) -> (r: Result<bool, ScanError>)
        requires
            name_start <= name_end <= old(self).source@.len(),
            value_start <= value_end <= old(self).source@.len(),
            fits(old(self).source@.len() as int),
        ensures
            final(self).source == old(self).source,
            match r {
                Ok(cf) => valued_step(
                    old(self).source@,
                    old(self).source@.subrange(name_start as int, name_end as int),
                    value_start as int,
                    value_end as int,
                    old(self).state(),
                ) == Some((cf, final(self).state())),
                Err(_) => valued_step(
                    old(self).source@,
                    old(self).source@.subrange(name_start as int, name_end as int),
                    value_start as int,
                    value_end as int,
                    old(self).state(),
                ) is None,
            },
    {
        let s = self.source;
        if is_control_flow_directive(s, name_start, name_end) {
            self.complexity.add_control_flow(self.nesting);
            self.complexity.add_expression_in(s, value_start, value_end, value_start, self.nesting)?;
            return Ok(true);
        }
        if is_bound_directive(s, name_start, name_end) {
            self.complexity.add_expression_in(s, value_start, value_end, value_start, self.nesting)?;
        }
        Ok(false)
    }

    /// Scan the attributes of the tag `[tag_start, tag_end]`; `Ok(true)` when
    /// it carries a control-flow directive.
    #[verifier::loop_isolation(false)]
    fn scan_attributes(&mut self, tag_start: usize, tag_end: usize) -> (r: Result<bool, ScanError>)
        requires
            tag_start < tag_end < old(self).source@.len(),
            fits(old(self).source@.len() as int),
        ensures
            final(self).source == old(self).source,
            match r {
                Ok(cf) => attributes_from(
                    old(self).source@,
                    tag_name_run_end(old(self).source@, tag_start + 1, tag_end as int),
                    tag_end as int,
                    old(self).state(),
                    false,
                ) == Some((cf, final(self).state())),
                Err(_) => attributes_from(
                    old(self).source@,
                    tag_name_run_end(old(self).source@, tag_start + 1, tag_end as int),
                    tag_end as int,
                    old(self).state(),
                    false,
                ) is None,
            },
    {
        let s = self.source;
        let ghost st0 = self.state();
        let mut offset = tag_start + 1;
        while offset < tag_end && !(text::is_ascii_ws(s[offset]) || s[offset] == SLASH || s[offset]
            == GT)
            invariant
                tag_start < offset <= tag_end < s@.len(),
                tag_name_run_end(s@, offset as int, tag_end as int) == tag_name_run_end(
                    s@,
                    tag_start + 1,
                    tag_end as int,
                ),
            decreases tag_end - offset,
        {
            offset = offset + 1;
        }
        let ghost start = offset;
        let mut has_control_flow = false;
        while offset < tag_end
            invariant
                self.source == s,
                tag_end < s@.len(),
                fits(s@.len() as int),
                start as int == tag_name_run_end(s@, tag_start + 1, tag_end as int),
                attributes_from(s@, offset as int, tag_end as int, self.state(), has_control_flow)
                    == attributes_from(s@, start as int, tag_end as int, st0, false),
            decreases if offset < tag_end { tag_end - offset } else { 0 },
        {
            let ghost off0 = offset;
            let ghost stc = self.state();
            let ghost hc = has_control_flow;
            proof {
                lemma_ws_run_end(s@, off0 as int);
            }
            offset = skip_whitespace(s, offset);
            if offset >= tag_end || s[offset] == SLASH || s[offset] == GT {
                return Ok(has_control_flow);
            }
            let name_start = offset;
            while offset < tag_end && !(text::is_ascii_ws(s[offset]) || s[offset] == EQ || s[offset]
                == SLASH || s[offset] == GT)
                invariant
                    name_start <= offset <= tag_end < s@.len(),
                    attr_name_end(s@, offset as int, tag_end as int) == attr_name_end(
                        s@,
                        name_start as int,
                        tag_end as int,
                    ),
                decreases tag_end - offset,
            {
                offset = offset + 1;
            }
            let name_end = offset;
            proof {
                lemma_attr_name_end(s@, name_start as int, tag_end as int);
                lemma_ws_run_end(s@, name_end as int);
                lemma_ws_run_end(s@, name_start as int);
            }
            offset = skip_whitespace(s, offset);
            if offset >= tag_end || s[offset] != EQ {
                let cf = self.scan_valueless_attr(name_start, name_end);
                has_control_flow = has_control_flow || cf;
                continue;
            }
            proof {
                lemma_ws_run_end(s@, offset + 1);
            }
            offset = skip_whitespace(s, offset + 1);
            proof {
                lemma_attribute_value(s@, offset as int);
            }
            let (value_start, value_end, next_offset) = read_attribute_value(s, offset)?;
            let cf = self.scan_attribute_value(name_start, name_end, value_start, value_end)?;
            has_control_flow = has_control_flow || cf;
            offset = next_offset;
        }
        Ok(has_control_flow)
    }

    /// Scan the tag that opens at `offset`; returns the offset past its `>`.
    fn scan_element(&mut self, offset: usize) -> (r: Result<usize, ScanError>)
        requires
            offset < old(self).source@.len(),
            fits(old(self).source@.len() as int),
        ensures
            final(self).source == old(self).source,
            match r {
                Ok(n) => element_step(old(self).source@, offset as int, old(self).state()) == Some(
                    (n as int, final(self).state()),
                ),
                Err(_) => element_step(old(self).source@, offset as int, old(self).state()) is None,
            },
    {
        let s = self.source;
        let tag_end = find_tag_end(s, offset)?;
        let after = tag_end + 1;
        if text::at2(s, offset, s.len(), LT, SLASH) {
            match self.tag_stack.pop() {
                Some(top) => {
                    if top {
                        self.nesting = self.nesting.saturating_sub(1);
                    }
                },
                None => {},
            }
            return Ok(after);
        }
        if text::at2(s, offset, s.len(), LT, BANG) || text::at2(s, offset, s.len(), LT, QUESTION) {
            return Ok(after);
        }
        let trimmed = text::trim_end(s, 0, tag_end);
        let self_closing = trimmed > 0 && s[trimmed - 1] == SLASH;
        let tag_name_end = read_tag_name(s, offset);
        let has_control_flow = self.scan_attributes(offset, tag_end)?;
        if !self_closing && !is_void_tag(s, offset + 1, tag_name_end) {
            self.tag_stack.push(has_control_flow);
            if has_control_flow {
                self.nesting = self.nesting.saturating_add(1);
            }
        }
        Ok(after)
    }

    /// Scan the whole (masked) template from the current state.
    #[verifier::loop_isolation(false)]
    fn scan(self) -> (r: Result<TemplateComplexity, ScanError>)
        requires
            fits(self.source@.len() as int),
        ensures
            match r {
                Ok(tc) => vue_scan_from(self.source@, 0, self.state()) == Some(tc),
                Err(_) => vue_scan_from(self.source@, 0, self.state()) is None,
            },
    {
        let mut scanner = self;
        let s = scanner.source;
        let ghost st0 = scanner.state();
        let mut offset: usize = 0;
        while offset < s.len()
            invariant
                scanner.source == s,
                fits(s@.len() as int),
                vue_scan_from(s@, offset as int, scanner.state()) == vue_scan_from(s@, 0, st0),
            decreases if offset < s@.len() { s@.len() - offset } else { 0 },
        {
            if text::at2(s, offset, s.len(), LBRACE, LBRACE) {
                let end = scanner.find_required(offset + 2)?;
                proof {
                    lemma_pair_from(s@, offset + 2, RBRACE, RBRACE);
                }
                let nesting = scanner.nesting;
                scanner.complexity.add_expression_in(s, offset + 2, end, offset + 2, nesting)?;
                offset = end + 2;
                continue;
            }
            if s[offset] == LT {
                proof {
                    lemma_element_step_advances(s@, offset as int, scanner.state());
                }
                offset = scanner.scan_element(offset)?;
            } else {
                offset = offset + text::utf8_width(s[offset]);
            }
        }
        Ok(scanner.complexity)
    }
}

/// The source bytes with `<script>` / `<style>` blocks and HTML comments
/// replaced by equal-length runs of spaces.
pub fn mask_non_template(source: &str) -> (r: Vec<u8>)
    ensures
        r@ == masked_template(source),
{
    let spans = match regex_find_iter(MASK_PATTERN, source) {
        Some(v) => v,
        None => Vec::new(),
    };
    assert(spans_or_empty(regex_find_spans(MASK_PATTERN@, source@)) =~= spans@);
    mask_spans(source, &spans)
}

/// The source bytes with every byte inside one of `spans` (matches of
/// [`MASK_PATTERN`], each ending within the source) replaced by a space.
pub fn mask_spans(source: &str, spans: &Vec<(usize, usize)>) -> (r: Vec<u8>)
    requires
        forall|x: int| 0 <= x < spans@.len() ==> (#[trigger] spans@[x]).1 <= source.spec_bytes().len(),
    ensures
        r@ == masked(source.spec_bytes(), spans@),
{
    let bytes = source.as_bytes();
    let mut out: Vec<u8> = Vec::new();
    let mut i: usize = 0;
    while i < bytes.len()
        invariant
            i <= bytes@.len(),
            out@ == bytes@.subrange(0, i as int),
        decreases bytes@.len() - i,
    {
        out.push(bytes[i]);
        i = i + 1;
    }
    assert(out@ =~= bytes@);
    let mut k: usize = 0;
    while k < spans.len()
        invariant
            k <= spans@.len(),
            out@.len() == bytes@.len(),
            bytes@ == source.spec_bytes(),
            forall|x: int| 0 <= x < spans@.len() ==> (#[trigger] spans@[x]).1 <= bytes@.len(),
            forall|x: int|
                0 <= x < out@.len() ==> #[trigger] out@[x] == if covered(spans@.subrange(0, k as int), x) {
                    SPACE
                } else {
                    bytes@[x]
                },
        decreases spans@.len() - k,
    {
        let (start, end) = spans[k];
        let mut j = start;
        assert(spans@[k as int].1 <= bytes@.len());
        while j < end
            invariant
                start <= j <= end || (end < start && j == start),
                end <= bytes@.len(),
                out@.len() == bytes@.len(),
                forall|x: int|
                    0 <= x < out@.len() ==> #[trigger] out@[x] == if covered(spans@.subrange(0, k as int), x)
                        || (start <= x < j) {
                        SPACE
                    } else {
                        bytes@[x]
                    },
            decreases end - j,
        {
            out.set(j, SPACE);
            j = j + 1;
        }
        proof {
            let next = spans@.subrange(0, k + 1);
            let prev = spans@.subrange(0, k as int);
            assert forall|x: int| 0 <= x < out@.len() implies #[trigger] out@[x] == if covered(next, x) {
                SPACE
            } else {
                bytes@[x]
            } by {
                if covered(prev, x) {
                    let w = choose|w: int| 0 <= w < prev.len() && #[trigger] in_span(prev[w], x);
                    assert(next[w] == prev[w]);
                } else if start <= x < end {
                    assert(in_span(next[k as int], x));
                } else if covered(next, x) {
                    let w = choose|w: int| 0 <= w < next.len() && #[trigger] in_span(next[w], x);
                    if w < k {
                        assert(prev[w] == next[w]);
                        assert(in_span(prev[w], x));
                    }
                }
            }
        }
        k = k + 1;
    }
    assert(spans@.subrange(0, spans@.len() as int) =~= spans@);
    assert(out@ =~= masked(bytes@, spans@));
    out
}

/// The synthetic `<template>` complexity entry of a component.
#[derive(Debug)]
pub struct TemplateFinding {
    /// Always `<template>`.
    pub name: String,
    pub cyclomatic: u16,
    pub cognitive: u16,
    /// Byte offset of the first non-trivial expression, if any.
    pub first_offset: Option<usize>,
}

/// The finding reported for a non-trivial template complexity `tc`.
pub open spec fn finding_matches(f: TemplateFinding, tc: TemplateComplexity) -> bool {
    &&& f.name@ == "<template>"@
    &&& f.cyclomatic == tc.cyclomatic
    &&& f.cognitive == tc.cognitive
    &&& f.first_offset == tc.first_offset
}

/// Synthetic `<template>` complexity of a Vue SFC: `None` for a trivial
/// template (no control flow, no non-trivial expression) or malformed markup.
pub fn compute_vue_template_complexity(source: &str) -> (r: Option<TemplateFinding>)
    requires
        fits(source.spec_bytes().len() as int),
    ensures
        match vue_scan(masked_template(source)) {
            Some(tc) => if is_trivial(tc) {
                r is None
            } else {
                r matches Some(f) && finding_matches(f, tc)
            },
            None => r is None,
        },
{
    let markup = mask_non_template(source);
    let scanner = VueScanner::new(markup.as_slice());
    let complexity = match scanner.scan() {
        Ok(c) => c,
        Err(_) => return None,
    };
    if complexity.cyclomatic == 1 && complexity.cognitive == 0 {
        None
    } else {
        Some(
            TemplateFinding {
                name: "<template>".to_owned(),
                cyclomatic: complexity.cyclomatic,
                cognitive: complexity.cognitive,
                first_offset: complexity.first_offset,
            },
        )
    }
}

} // verus!
