//! Framework-agnostic JavaScript-expression complexity engine shared by the
//! template scanners.
//!
//! A bound JS expression (a `v-if` condition, a `{{ }}` interpolation, ...) is
//! scored by logical-operator count, ternary branches and optional chaining.
//! All positions are byte offsets into the UTF-8 source; the scanners walk
//! whole characters, so a multi-byte character is never split.
//!
//! The spec functions below define the score of `s[lo..hi)` directly on the
//! bytes; every executable function is proved to compute exactly that value.

use vstd::prelude::*;
use vstd::string::StringSliceAdditionalSpecFns;

use crate::text::{
    ascii_alpha, ascii_digit, ascii_ws, has2, has3, trimmed_end, trimmed_start, width_of, AMP, DOLLAR, UNDERSCORE,
    BACKSLASH, BACKTICK, COLON, COMMA, DOT, DQUOTE, EQ, GT, LBRACE, LBRACKET, LPAREN, PIPE,
    QUESTION, RBRACE, RBRACKET, RPAREN, SEMI, SLASH, SQUOTE,
};
use crate::text;

verus! {

broadcast use crate::text::lemma_width_of_range;

} // verus!

verus! {

/// Malformed input. Carries no data: the caller drops the synthetic finding.
#[derive(Debug, Clone, Copy)]
pub struct ScanError;

#[derive(Debug, Clone, Copy, PartialEq, Eq)]
pub enum LogicalOperator {
    And,
    Or,
    Nullish,
}

/// Cyclomatic / cognitive contribution of one expression.
#[derive(Debug, Clone, Copy, PartialEq, Eq)]
pub struct ExpressionMetrics {
    pub cyclomatic: u16,
    pub cognitive: u16,
}

/// Accumulated synthetic `<template>` complexity. `cyclomatic` starts at 1 (the
/// implicit straight-line path).
#[derive(Debug, Clone, Copy, PartialEq, Eq)]
pub struct TemplateComplexity {
    pub cyclomatic: u16,
    pub cognitive: u16,
    pub first_offset: Option<usize>,
}

/// Maximum bracket/ternary recursion depth; deeper input is malformed.
pub const MAX_TEMPLATE_EXPR_DEPTH: u16 = 64;

// ---------------------------------------------------------------------------
// Specification
// ---------------------------------------------------------------------------

/// `u16::saturating_add`.
pub open spec fn sat(a: u16, b: u16) -> u16 {
    if a + b > u16::MAX {
        u16::MAX
    } else {
        (a + b) as u16
    }
}

pub open spec fn zero_metrics() -> ExpressionMetrics {
    ExpressionMetrics { cyclomatic: 0, cognitive: 0 }
}

pub open spec fn metrics_sum(a: ExpressionMetrics, b: ExpressionMetrics) -> ExpressionMetrics {
    ExpressionMetrics {
        cyclomatic: sat(a.cyclomatic, b.cyclomatic),
        cognitive: sat(a.cognitive, b.cognitive),
    }
}

impl ExpressionMetrics {
    /// Add `other` into `self`, each count saturating at `u16::MAX`.
    pub fn add(&mut self, other: Self)
        ensures
            *final(self) == metrics_sum(*old(self), other),
    {
        self.cyclomatic = self.cyclomatic.saturating_add(other.cyclomatic);
        self.cognitive = self.cognitive.saturating_add(other.cognitive);
    }
}

pub open spec fn quote3(b: u8) -> bool {
    b == SQUOTE || b == DQUOTE || b == BACKTICK
}

pub open spec fn open_bracket(b: u8) -> bool {
    b == LPAREN || b == LBRACKET || b == LBRACE
}

pub open spec fn close_bracket(b: u8) -> bool {
    b == RPAREN || b == RBRACKET || b == RBRACE
}

pub open spec fn close_of(b: u8) -> u8 {
    if b == LPAREN {
        RPAREN
    } else if b == LBRACKET {
        RBRACKET
    } else {
        RBRACE
    }
}

/// Offset just past the closing `quote` of a quoted run whose body starts at
/// `off` (backslash escapes one whole character), or `None` when `[off, hi)`
/// ends first.
pub open spec fn quote_end_from(s: Seq<u8>, hi: int, quote: u8, off: int) -> Option<int>
    decreases if off < hi { hi - off } else { 0 },
{
    if off >= hi || off < 0 {
        None
    } else if s[off] == BACKSLASH {
        if off + 1 < hi {
            quote_end_from(s, hi, quote, off + 1 + width_of(s[off + 1]))
        } else {
            None
        }
    } else if s[off] == quote {
        Some(off + 1)
    } else {
        quote_end_from(s, hi, quote, off + width_of(s[off]))
    }
}

/// `skip_quoted`: the quote byte sits at `q`.
pub open spec fn quote_end(s: Seq<u8>, hi: int, q: int) -> Option<int> {
    quote_end_from(s, hi, s[q], q + 1)
}

pub proof fn lemma_quote_end_from_advances(s: Seq<u8>, hi: int, quote: u8, off: int)
    ensures
        quote_end_from(s, hi, quote, off) matches Some(n) ==> off < n <= hi,
    decreases if off < hi { hi - off } else { 0 },
{
    if off >= hi || off < 0 {
    } else if s[off] == BACKSLASH {
        if off + 1 < hi {
            lemma_quote_end_from_advances(s, hi, quote, off + 1 + width_of(s[off + 1]));
        }
    } else if s[off] == quote {
    } else {
        lemma_quote_end_from_advances(s, hi, quote, off + width_of(s[off]));
    }
}

/// Offset of the `close` byte that balances the `open` already consumed, with
/// `depth` brackets still open at `off`.
pub open spec fn delimiter_from(s: Seq<u8>, hi: int, open: u8, close: u8, off: int, depth: u16) -> Option<int>
    decreases if off < hi { hi - off } else { 0 },
{
    if off >= hi || off < 0 {
        None
    } else if quote3(s[off]) {
        match quote_end(s, hi, off) {
            None => None,
            Some(n) => {
                proof {
                    lemma_quote_end_from_advances(s, hi, s[off], off + 1);
                }
                delimiter_from(s, hi, open, close, n, depth)
            },
        }
    } else if s[off] == open {
        delimiter_from(s, hi, open, close, off + 1, sat(depth, 1))
    } else if s[off] == close {
        if depth <= 1 {
            Some(off)
        } else {
            delimiter_from(s, hi, open, close, off + 1, (depth - 1) as u16)
        }
    } else {
        delimiter_from(s, hi, open, close, off + width_of(s[off]), depth)
    }
}

pub proof fn lemma_delimiter_from_bounds(s: Seq<u8>, hi: int, open: u8, close: u8, off: int, depth: u16)
    ensures
        delimiter_from(s, hi, open, close, off, depth) matches Some(n) ==> off <= n < hi,
    decreases if off < hi { hi - off } else { 0 },
{
    if off >= hi || off < 0 {
    } else if quote3(s[off]) {
        lemma_quote_end_from_advances(s, hi, s[off], off + 1);
        if let Some(n) = quote_end(s, hi, off) {
            lemma_delimiter_from_bounds(s, hi, open, close, n, depth);
        }
    } else if s[off] == open {
        lemma_delimiter_from_bounds(s, hi, open, close, off + 1, sat(depth, 1));
    } else if s[off] == close {
        if depth > 1 {
            lemma_delimiter_from_bounds(s, hi, open, close, off + 1, (depth - 1) as u16);
        }
    } else {
        lemma_delimiter_from_bounds(s, hi, open, close, off + width_of(s[off]), depth);
    }
}

/// The top-level `?` / `:` pair of a ternary in `[off, hi)` given the scan
/// state; outer `None` is a malformed expression, inner `None` means no
/// top-level ternary.
pub open spec fn ternary_from(
    s: Seq<u8>,
    hi: int,
    off: int,
    depth: u16,
    nested: u16,
    question: Option<int>,
) -> Option<Option<(int, int)>>
    decreases if off < hi { hi - off } else { 0 },
{
    if off >= hi || off < 0 {
        if question.is_some() || depth != 0 {
            None
        } else {
            Some(None)
        }
    } else {
        let b = s[off];
        if quote3(b) {
            match quote_end(s, hi, off) {
                None => None,
                Some(n) => {
                    proof {
                        lemma_quote_end_from_advances(s, hi, s[off], off + 1);
                    }
                    ternary_from(s, hi, n, depth, nested, question)
                },
            }
        } else if open_bracket(b) {
            ternary_from(s, hi, off + 1, sat(depth, 1), nested, question)
        } else if close_bracket(b) {
            if depth == 0 {
                None
            } else {
                ternary_from(s, hi, off + 1, (depth - 1) as u16, nested, question)
            }
        } else if b == QUESTION && (has2(s, off, hi, QUESTION, QUESTION) || has2(
            s,
            off,
            hi,
            QUESTION,
            DOT,
        )) {
            ternary_from(s, hi, off + 2, depth, nested, question)
        } else if b == QUESTION && depth == 0 {
            if question.is_none() {
                ternary_from(s, hi, off + 1, depth, nested, Some(off))
            } else {
                ternary_from(s, hi, off + 1, depth, sat(nested, 1), question)
            }
        } else if b == COLON && depth == 0 && question.is_some() {
            if nested == 0 {
                Some(Some((question.unwrap(), off)))
            } else {
                ternary_from(s, hi, off + 1, depth, (nested - 1) as u16, question)
            }
        } else {
            ternary_from(s, hi, off + width_of(b), depth, nested, question)
        }
    }
}

pub proof fn lemma_ternary_from_bounds(
    s: Seq<u8>,
    hi: int,
    off: int,
    depth: u16,
    nested: u16,
    question: Option<int>,
    lo: int,
)
    requires
        0 <= lo <= off,
        question matches Some(q) ==> lo <= q < off,
    ensures
        ternary_from(s, hi, off, depth, nested, question) matches Some(Some((q, c))) ==> lo <= q
            < c < hi,
    decreases if off < hi { hi - off } else { 0 },
{
    if off >= hi || off < 0 {
    } else {
        let b = s[off];
        if quote3(b) {
            lemma_quote_end_from_advances(s, hi, s[off], off + 1);
            if let Some(n) = quote_end(s, hi, off) {
                lemma_ternary_from_bounds(s, hi, n, depth, nested, question, lo);
            }
        } else if open_bracket(b) {
            lemma_ternary_from_bounds(s, hi, off + 1, sat(depth, 1), nested, question, lo);
        } else if close_bracket(b) {
            if depth != 0 {
                lemma_ternary_from_bounds(s, hi, off + 1, (depth - 1) as u16, nested, question, lo);
            }
        } else if b == QUESTION && (has2(s, off, hi, QUESTION, QUESTION) || has2(
            s,
            off,
            hi,
            QUESTION,
            DOT,
        )) {
            lemma_ternary_from_bounds(s, hi, off + 2, depth, nested, question, lo);
        } else if b == QUESTION && depth == 0 {
            if question.is_none() {
                lemma_ternary_from_bounds(s, hi, off + 1, depth, nested, Some(off), lo);
            } else {
                lemma_ternary_from_bounds(s, hi, off + 1, depth, sat(nested, 1), question, lo);
            }
        } else if b == COLON && depth == 0 && question.is_some() {
            if nested != 0 {
                lemma_ternary_from_bounds(s, hi, off + 1, depth, (nested - 1) as u16, question, lo);
            }
        } else {
            lemma_ternary_from_bounds(s, hi, off + width_of(b), depth, nested, question, lo);
        }
    }
}

/// Per-position state of the ternary-free scan.
pub struct ScanState {
    pub metrics: ExpressionMetrics,
    pub last_logical_operator: Option<LogicalOperator>,
    pub needs_rhs: bool,
}

pub open spec fn operator_at(s: Seq<u8>, off: int) -> LogicalOperator {
    if s[off] == AMP {
        LogicalOperator::And
    } else if s[off] == PIPE {
        LogicalOperator::Or
    } else {
        LogicalOperator::Nullish
    }
}

pub open spec fn is_logical_assign_at(s: Seq<u8>, off: int, hi: int) -> bool {
    has3(s, off, hi, AMP, AMP, EQ) || has3(s, off, hi, PIPE, PIPE, EQ) || has3(
        s,
        off,
        hi,
        QUESTION,
        QUESTION,
        EQ,
    )
}

pub open spec fn is_logical_at(s: Seq<u8>, off: int, hi: int) -> bool {
    has2(s, off, hi, AMP, AMP) || has2(s, off, hi, PIPE, PIPE) || has2(s, off, hi, QUESTION, QUESTION)
}

/// Metrics of `s[lo..hi)` (`compute_expression_metrics`): `None` when the
/// expression is malformed or nests deeper than the cap.
pub open spec fn expression_metrics(s: Seq<u8>, lo: int, hi: int, nesting: u16, depth: int) -> Option<ExpressionMetrics>
    decreases 65 - depth, 2int, 0int,
{
    if depth > 64 || depth < 0 || !(0 <= lo <= hi <= s.len()) {
        None
    } else {
        let lo2 = trimmed_start(s, lo, hi);
        let hi2 = trimmed_end(s, lo2, hi);
        if lo2 >= hi2 {
            Some(zero_metrics())
        } else {
            match ternary_from(s, hi2, lo2, 0, 0, None) {
                None => None,
                Some(Some((q, c))) => {
                        match expression_metrics(s, lo2, q, nesting, depth + 1) {
                            None => None,
                            Some(m1) => {
                                let m = ExpressionMetrics {
                                    cyclomatic: sat(m1.cyclomatic, 1),
                                    cognitive: sat(m1.cognitive, sat(nesting, 1)),
                                };
                                match expression_metrics(s, q + 1, c, sat(nesting, 1), depth + 1) {
                                    None => None,
                                    Some(m2) => match expression_metrics(
                                        s,
                                        c + 1,
                                        hi2,
                                        sat(nesting, 1),
                                        depth + 1,
                                    ) {
                                        None => None,
                                        Some(m3) => Some(metrics_sum(metrics_sum(m, m2), m3)),
                                    },
                                }
                            },
                        }
                },
                Some(None) => scan_from(
                    s,
                    hi2,
                    lo2,
                    ScanState {
                        metrics: zero_metrics(),
                        last_logical_operator: None,
                        needs_rhs: false,
                    },
                    nesting,
                    depth,
                ),
            }
        }
    }
}

/// `scan_logical_operator` on a 2-byte `&&` / `||` / `??` at `off`.
pub open spec fn logical_step(s: Seq<u8>, off: int, st: ScanState) -> ScanState {
    let op = operator_at(s, off);
    let same = st.last_logical_operator == Some(op);
    ScanState {
        metrics: ExpressionMetrics {
            cyclomatic: sat(st.metrics.cyclomatic, 1),
            cognitive: if same {
                st.metrics.cognitive
            } else {
                sat(st.metrics.cognitive, 1)
            },
        },
        last_logical_operator: Some(op),
        needs_rhs: true,
    }
}

/// `scan_bracket_group` on the opening bracket at `off`: the offset past the
/// matching close and the state with the group's metrics folded in.
pub open spec fn bracket_step(s: Seq<u8>, hi: int, off: int, st: ScanState, nesting: u16, depth: int) -> Option<(int, ScanState)>
{
    if depth > 64 || depth < 0 || !(0 <= off < hi <= s.len()) {
        None
    } else {
        let b = s[off];
        match delimiter_from(s, hi, b, close_of(b), off + 1, 1) {
            None => None,
            Some(end) => {
                match expression_metrics(s, off + 1, end, nesting, depth + 1) {
                    None => None,
                    Some(m) => Some(
                        (
                            end + 1,
                            ScanState {
                                metrics: metrics_sum(st.metrics, m),
                                last_logical_operator: None,
                                needs_rhs: false,
                            },
                        ),
                    ),
                }
            },
        }
    }
}

/// The ternary-free scan of `[off, hi)` from state `st`
/// (`scan_expression_without_ternary`).
pub open spec fn scan_from(s: Seq<u8>, hi: int, off: int, st: ScanState, nesting: u16, depth: int) -> Option<ExpressionMetrics>
    decreases 65 - depth, 1int, if off < hi { hi - off } else { 0 },
{
    if depth > 64 || depth < 0 || off < 0 || hi > s.len() {
        None
    } else if off >= hi {
        if st.needs_rhs {
            None
        } else {
            Some(st.metrics)
        }
    } else {
        let b = s[off];
        if ascii_ws(b) {
            scan_from(s, hi, off + 1, st, nesting, depth)
        } else if quote3(b) {
            match quote_end(s, hi, off) {
                None => None,
                Some(n) => {
                    proof {
                        lemma_quote_end_from_advances(s, hi, s[off], off + 1);
                    }
                    scan_from(s, hi, n, ScanState { needs_rhs: false, ..st }, nesting, depth)
                },
            }
        } else if open_bracket(b) {
            match delimiter_from(s, hi, b, close_of(b), off + 1, 1) {
                None => None,
                Some(end) => {
                    proof {
                        lemma_delimiter_from_bounds(s, hi, b, close_of(b), off + 1, 1);
                    }
                    match expression_metrics(s, off + 1, end, nesting, depth + 1) {
                        None => None,
                        Some(m) => scan_from(
                            s,
                            hi,
                            end + 1,
                            ScanState {
                                metrics: metrics_sum(st.metrics, m),
                                last_logical_operator: None,
                                needs_rhs: false,
                            },
                            nesting,
                            depth,
                        ),
                    }
                },
            }
        } else if close_bracket(b) {
            None
        } else if has2(s, off, hi, QUESTION, DOT) {
            scan_from(
                s,
                hi,
                off + 2,
                ScanState {
                    metrics: ExpressionMetrics {
                        cyclomatic: sat(st.metrics.cyclomatic, 1),
                        ..st.metrics
                    },
                    ..st
                },
                nesting,
                depth,
            )
        } else if is_logical_assign_at(s, off, hi) {
            scan_from(
                s,
                hi,
                off + 3,
                ScanState {
                    metrics: ExpressionMetrics {
                        cyclomatic: sat(st.metrics.cyclomatic, 1),
                        ..st.metrics
                    },
                    last_logical_operator: None,
                    needs_rhs: true,
                },
                nesting,
                depth,
            )
        } else if is_logical_at(s, off, hi) {
            if st.needs_rhs {
                None
            } else {
                scan_from(s, hi, off + 2, logical_step(s, off, st), nesting, depth)
            }
        } else if b == COMMA || b == SEMI {
            if st.needs_rhs {
                None
            } else {
                scan_from(
                    s,
                    hi,
                    off + 1,
                    ScanState { last_logical_operator: None, ..st },
                    nesting,
                    depth,
                )
            }
        } else {
            scan_from(
                s,
                hi,
                off + width_of(b),
                ScanState { needs_rhs: false, ..st },
                nesting,
                depth,
            )
        }
    }
}

/// `r` is the executable image of the spec outcome `o`.
pub open spec fn outcome<T>(r: Result<T, ScanError>, o: Option<T>) -> bool {
    match r {
        Ok(v) => o == Some(v),
        Err(_) => o is None,
    }
}

/// `r` is the executable image of the spec offset outcome `o`.
pub open spec fn offset_outcome(r: Result<usize, ScanError>, o: Option<int>) -> bool {
    match r {
        Ok(v) => o == Some(v as int),
        Err(_) => o is None,
    }
}

pub open spec fn ternary_outcome(r: Result<Option<(usize, usize)>, ScanError>, o: Option<Option<(int, int)>>) -> bool {
    match r {
        Ok(Some((q, c))) => o == Some(Some((q as int, c as int))),
        Ok(None) => o == Some(None::<(int, int)>),
        Err(_) => o is None,
    }
}

pub open spec fn opt_int(o: Option<usize>) -> Option<int> {
    match o {
        Some(v) => Some(v as int),
        None => None,
    }
}

/// Slices handled here leave headroom below `usize::MAX` for the few bytes a
/// scanner may step past the end.
pub open spec fn fits(n: int) -> bool {
    n + 8 <= usize::MAX
}

// ---------------------------------------------------------------------------
// Executable scanners
// ---------------------------------------------------------------------------

pub fn is_quote_byte(b: u8) -> (r: bool)
    ensures
        r == quote3(b),
{
    b == SQUOTE || b == DQUOTE || b == BACKTICK
}

pub fn matching_close_byte(open: u8) -> (r: Option<u8>)
    ensures
        r == (if open_bracket(open) {
            Some(close_of(open))
        } else {
            None::<u8>
        }),
{
    if open == LPAREN {
        Some(RPAREN)
    } else if open == LBRACKET {
        Some(RBRACKET)
    } else if open == LBRACE {
        Some(RBRACE)
    } else {
        None
    }
}

/// Offset just past the quoted run that opens at `quote_offset`.
pub fn skip_quoted(s: &[u8], hi: usize, quote_offset: usize) -> (r: Result<usize, ScanError>)
    requires
        quote_offset < hi <= s@.len(),
        fits(s@.len() as int),
    ensures
        offset_outcome(r, quote_end(s@, hi as int, quote_offset as int)),
        r matches Ok(n) ==> quote_offset + 1 < n <= hi,
{
    let quote = s[quote_offset];
    let mut offset = quote_offset + 1;
    proof {
        lemma_quote_end_from_advances(s@, hi as int, quote, offset as int);
    }
    while offset < hi
        invariant
            quote_offset < offset <= hi + 8,
            hi <= s@.len(),
            fits(s@.len() as int),
            quote == s@[quote_offset as int],
            quote_end_from(s@, hi as int, quote, offset as int) == quote_end(
                s@,
                hi as int,
                quote_offset as int,
            ),
        decreases if offset < hi { hi - offset } else { 0 },
    {
        let b = s[offset];
        if b == BACKSLASH {
            offset = offset + 1;
            if offset < hi {
                offset = offset + text::utf8_width(s[offset]);
            } else {
                return Err(ScanError);
            }
        } else if b == quote {
            proof {
                lemma_quote_end_from_advances(s@, hi as int, quote, quote_offset + 1);
            }
            return Ok(offset + 1);
        } else {
            offset = offset + text::utf8_width(b);
        }
    }
    Err(ScanError)
}

pub fn find_matching_delimiter(s: &[u8], hi: usize, open_offset: usize, open: u8, close: u8) -> (r: Result<usize, ScanError>)
    requires
        open_offset < hi <= s@.len(),
        fits(s@.len() as int),
    ensures
        offset_outcome(r, delimiter_from(s@, hi as int, open, close, open_offset + 1, 1)),
        r matches Ok(n) ==> open_offset < n < hi,
{
    let mut offset = open_offset + 1;
    let mut depth: u16 = 1;
    proof {
        lemma_delimiter_from_bounds(s@, hi as int, open, close, offset as int, depth);
    }
    while offset < hi
        invariant
            open_offset < offset <= hi + 8,
            hi <= s@.len(),
            fits(s@.len() as int),
            depth >= 1,
            delimiter_from(s@, hi as int, open, close, offset as int, depth) == delimiter_from(
                s@,
                hi as int,
                open,
                close,
                open_offset + 1,
                1,
            ),
        decreases if offset < hi { hi - offset } else { 0 },
    {
        let b = s[offset];
        if is_quote_byte(b) {
            offset = skip_quoted(s, hi, offset)?;
        } else if b == open {
            depth = depth.saturating_add(1);
            offset = offset + 1;
        } else if b == close {
            depth = depth - 1;
            if depth == 0 {
                proof {
                    lemma_delimiter_from_bounds(s@, hi as int, open, close, open_offset + 1, 1);
                }
                return Ok(offset);
            }
            offset = offset + 1;
        } else {
            offset = offset + text::utf8_width(b);
        }
    }
    Err(ScanError)
}

/// The top-level ternary `?` / `:` offsets of `s[lo..hi)`, if any.
pub fn find_top_level_ternary(s: &[u8], lo: usize, hi: usize) -> (r: Result<Option<(usize, usize)>, ScanError>)
    requires
        lo <= hi <= s@.len(),
        fits(s@.len() as int),
    ensures
        ternary_outcome(r, ternary_from(s@, hi as int, lo as int, 0, 0, None)),
        r matches Ok(Some((q, c))) ==> lo <= q < c < hi,
{
    let mut offset = lo;
    let mut depth: u16 = 0;
    let mut nested: u16 = 0;
    let mut question: Option<usize> = None;
    proof {
        lemma_ternary_from_bounds(s@, hi as int, lo as int, 0, 0, None, lo as int);
    }
    while offset < hi
        invariant
            lo <= offset <= hi + 8,
            hi <= s@.len(),
            fits(s@.len() as int),
            question matches Some(q) ==> lo <= q < offset,
            ternary_from(s@, hi as int, offset as int, depth, nested, opt_int(question))
                == ternary_from(s@, hi as int, lo as int, 0, 0, None),
        decreases if offset < hi { hi - offset } else { 0 },
    {
        let b = s[offset];
        if is_quote_byte(b) {
            offset = skip_quoted(s, hi, offset)?;
        } else if b == LPAREN || b == LBRACKET || b == LBRACE {
            depth = depth.saturating_add(1);
            offset = offset + 1;
        } else if b == RPAREN || b == RBRACKET || b == RBRACE {
            if depth == 0 {
                return Err(ScanError);
            }
            depth = depth - 1;
            offset = offset + 1;
        } else if b == QUESTION && (text::at2(s, offset, hi, QUESTION, QUESTION) || text::at2(
            s,
            offset,
            hi,
            QUESTION,
            DOT,
        )) {
            offset = offset + 2;
        } else if b == QUESTION && depth == 0 {
            if question.is_none() {
                question = Some(offset);
            } else {
                nested = nested.saturating_add(1);
            }
            offset = offset + 1;
        } else if b == COLON && depth == 0 && question.is_some() {
            if nested == 0 {
                let q = question.unwrap();
                return Ok(Some((q, offset)));
            }
            nested = nested - 1;
            offset = offset + 1;
        } else {
            offset = offset + text::utf8_width(b);
        }
    }
    if question.is_some() || depth != 0 {
        Err(ScanError)
    } else {
        Ok(None)
    }
}

fn same_operator(last: Option<LogicalOperator>, op: LogicalOperator) -> (r: bool)
    ensures
        r == (last == Some(op)),
{
    match (last, op) {
        (Some(LogicalOperator::And), LogicalOperator::And) => true,
        (Some(LogicalOperator::Or), LogicalOperator::Or) => true,
        (Some(LogicalOperator::Nullish), LogicalOperator::Nullish) => true,
        _ => false,
    }
}

/// Score the 2-byte logical operator at `offset`; returns the offset past it.
pub fn scan_logical_operator(s: &[u8], hi: usize, offset: usize, state: &mut ScanState) -> (r: Result<usize, ScanError>)
    requires
        hi <= s@.len(),
        is_logical_at(s@, offset as int, hi as int),
    ensures
        r matches Ok(n) ==> !old(state).needs_rhs && n == offset + 2 && *final(state) == logical_step(s@, offset as int, *old(state)),
        r is Err ==> old(state).needs_rhs && *final(state) == *old(state),
{
    if state.needs_rhs {
        return Err(ScanError);
    }
    let operator = if s[offset] == AMP {
        LogicalOperator::And
    } else if s[offset] == PIPE {
        LogicalOperator::Or
    } else {
        LogicalOperator::Nullish
    };
    state.metrics.cyclomatic = state.metrics.cyclomatic.saturating_add(1);
    if !same_operator(state.last_logical_operator, operator) {
        state.metrics.cognitive = state.metrics.cognitive.saturating_add(1);
        state.last_logical_operator = Some(operator);
    }
    state.needs_rhs = true;
    Ok(offset + 2)
}

/// Fold the bracketed group opening at `offset` into `state`; returns the
/// offset just past its closing bracket.
pub fn scan_bracket_group(
    s: &[u8],
    hi: usize,
    offset: usize,
    nesting: u16,
    depth: u16,
    state: &mut ScanState,
) -> (r: Result<usize, ScanError>)
    requires
        offset < hi <= s@.len(),
        fits(s@.len() as int),
        open_bracket(s@[offset as int]),
        depth <= 64,
    ensures
        r matches Ok(n) ==> bracket_step(s@, hi as int, offset as int, *old(state), nesting, depth as int) == Some((n as int, *final(state))),
        r is Err ==> bracket_step(s@, hi as int, offset as int, *old(state), nesting, depth as int) is None && *final(state) == *old(state),
        r matches Ok(n) ==> offset < n <= hi,
    decreases 65 - depth, 0int, 0int,
{
    let open = s[offset];
    let close = match matching_close_byte(open) {
        Some(c) => c,
        None => {
            return Err(ScanError);
        },
    };
    let end = find_matching_delimiter(s, hi, offset, open, close)?;
    let m = compute_expression_metrics_in(s, offset + 1, end, nesting, depth + 1)?;
    state.metrics.add(m);
    state.last_logical_operator = None;
    state.needs_rhs = false;
    Ok(end + 1)
}

/// `scan_expression_without_ternary` over `s[lo..hi)`.
pub fn scan_expression_without_ternary(s: &[u8], lo: usize, hi: usize, nesting: u16, depth: u16) -> (r: Result<ExpressionMetrics, ScanError>)
    requires
        lo <= hi <= s@.len(),
        fits(s@.len() as int),
        depth <= 64,
    ensures
        outcome(
            r,
            scan_from(
                s@,
                hi as int,
                lo as int,
                ScanState { metrics: zero_metrics(), last_logical_operator: None, needs_rhs: false },
                nesting,
                depth as int,
            ),
        ),
    decreases 65 - depth, 1int, 0int,
{
    let ghost init = ScanState {
        metrics: zero_metrics(),
        last_logical_operator: None,
        needs_rhs: false,
    };
    let mut state = ScanState {
        metrics: ExpressionMetrics { cyclomatic: 0, cognitive: 0 },
        last_logical_operator: None,
        needs_rhs: false,
    };
    let mut offset = lo;
    while offset < hi
        invariant
            lo <= offset <= hi + 8,
            hi <= s@.len(),
            fits(s@.len() as int),
            depth <= 64,
            init == (ScanState { metrics: zero_metrics(), last_logical_operator: None, needs_rhs: false }),
            scan_from(s@, hi as int, offset as int, state, nesting, depth as int) == scan_from(
                s@,
                hi as int,
                lo as int,
                init,
                nesting,
                depth as int,
            ),
        decreases if offset < hi { hi - offset } else { 0 },
    {
        let b = s[offset];
        if text::is_ascii_ws(b) {
            offset = offset + 1;
        } else if is_quote_byte(b) {
            offset = skip_quoted(s, hi, offset)?;
            state.needs_rhs = false;
        } else if b == LPAREN || b == LBRACKET || b == LBRACE {
            offset = scan_bracket_group(s, hi, offset, nesting, depth, &mut state)?;
        } else if b == RPAREN || b == RBRACKET || b == RBRACE {
            return Err(ScanError);
        } else if text::at2(s, offset, hi, QUESTION, DOT) {
            state.metrics.cyclomatic = state.metrics.cyclomatic.saturating_add(1);
            offset = offset + 2;
        } else if text::at3(s, offset, hi, AMP, AMP, EQ) || text::at3(s, offset, hi, PIPE, PIPE, EQ)
            || text::at3(s, offset, hi, QUESTION, QUESTION, EQ) {
            state.metrics.cyclomatic = state.metrics.cyclomatic.saturating_add(1);
            state.last_logical_operator = None;
            state.needs_rhs = true;
            offset = offset + 3;
        } else if text::at2(s, offset, hi, AMP, AMP) || text::at2(s, offset, hi, PIPE, PIPE)
            || text::at2(s, offset, hi, QUESTION, QUESTION) {
            offset = scan_logical_operator(s, hi, offset, &mut state)?;
        } else if b == COMMA || b == SEMI {
            if state.needs_rhs {
                return Err(ScanError);
            }
            state.last_logical_operator = None;
            offset = offset + 1;
        } else {
            state.needs_rhs = false;
            offset = offset + text::utf8_width(b);
        }
    }
    if state.needs_rhs {
        Err(ScanError)
    } else {
        Ok(state.metrics)
    }
}

/// Metrics of the expression `s[lo..hi)` (`compute_expression_metrics`).
pub fn compute_expression_metrics_in(s: &[u8], lo: usize, hi: usize, nesting: u16, depth: u16) -> (r: Result<ExpressionMetrics, ScanError>)
    requires
        lo <= hi <= s@.len(),
        fits(s@.len() as int),
    ensures
        outcome(r, expression_metrics(s@, lo as int, hi as int, nesting, depth as int)),
    decreases 65 - depth, 2int, 0int,
{
    if depth > MAX_TEMPLATE_EXPR_DEPTH {
        return Err(ScanError);
    }
    let lo2 = text::trim_start(s, lo, hi);
    let hi2 = text::trim_end(s, lo2, hi);
    if lo2 >= hi2 {
        return Ok(ExpressionMetrics { cyclomatic: 0, cognitive: 0 });
    }
    match find_top_level_ternary(s, lo2, hi2)? {
        Some((question, colon)) => {
            let m1 = compute_expression_metrics_in(s, lo2, question, nesting, depth + 1)?;
            let mut m = ExpressionMetrics {
                cyclomatic: m1.cyclomatic.saturating_add(1),
                cognitive: m1.cognitive.saturating_add(nesting.saturating_add(1)),
            };
            let inner = nesting.saturating_add(1);
            let m2 = compute_expression_metrics_in(s, question + 1, colon, inner, depth + 1)?;
            let m3 = compute_expression_metrics_in(s, colon + 1, hi2, inner, depth + 1)?;
            m.add(m2);
            m.add(m3);
            Ok(m)
        },
        None => scan_expression_without_ternary(s, lo2, hi2, nesting, depth),
    }
}

/// Metrics of one bound JS expression; `Err` when it is malformed or nests
/// more than `MAX_TEMPLATE_EXPR_DEPTH` brackets/ternaries deep.
pub fn compute_expression_metrics(source: &str, nesting: u16, depth: u16) -> (r: Result<ExpressionMetrics, ScanError>)
    requires
        fits(source.spec_bytes().len() as int),
    ensures
        outcome(r, expression_metrics(source.spec_bytes(), 0, source.spec_bytes().len() as int, nesting, depth as int)),
{
    let s = source.as_bytes();
    compute_expression_metrics_in(s, 0, s.len(), nesting, depth)
}

// ---------------------------------------------------------------------------
// Accumulated template complexity
// ---------------------------------------------------------------------------

/// The complexity after folding in the expression `s[lo..hi)` found at
/// `offset` in the template, and whether that expression was well formed.
pub open spec fn with_expression(
    tc: TemplateComplexity,
    s: Seq<u8>,
    lo: int,
    hi: int,
    offset: int,
    nesting: u16,
) -> (TemplateComplexity, bool) {
    let ts = trimmed_start(s, lo, hi);
    if ts >= hi {
        (tc, true)
    } else {
        let first = if tc.first_offset is None {
            Some((offset + (ts - lo)) as usize)
        } else {
            tc.first_offset
        };
        let tc1 = TemplateComplexity { first_offset: first, ..tc };
        match expression_metrics(s, ts, hi, nesting, 0) {
            None => (tc1, false),
            Some(m) => (
                TemplateComplexity {
                    cyclomatic: sat(tc1.cyclomatic, m.cyclomatic),
                    cognitive: sat(tc1.cognitive, m.cognitive),
                    ..tc1
                },
                true,
            ),
        }
    }
}

/// The complexity after one control-flow construct at `nesting`.
pub open spec fn with_control_flow(tc: TemplateComplexity, nesting: u16) -> TemplateComplexity {
    TemplateComplexity {
        cyclomatic: sat(tc.cyclomatic, 1),
        cognitive: sat(tc.cognitive, sat(nesting, 1)),
        ..tc
    }
}

impl Default for TemplateComplexity {
    fn default() -> (r: Self)
        ensures
            r == (TemplateComplexity { cyclomatic: 1, cognitive: 0, first_offset: None }),
    {
        TemplateComplexity { cyclomatic: 1, cognitive: 0, first_offset: None }
    }
}

impl TemplateComplexity {
    /// The baseline: one straight-line path, no cognitive weight, no anchor.
    pub fn new() -> (r: Self)
        ensures
            r == (TemplateComplexity { cyclomatic: 1, cognitive: 0, first_offset: None }),
    {
        TemplateComplexity { cyclomatic: 1, cognitive: 0, first_offset: None }
    }

    /// Fold in the expression `s[lo..hi)` that starts at template offset
    /// `offset`.
    pub fn add_expression_in(&mut self, s: &[u8], lo: usize, hi: usize, offset: usize, nesting: u16) -> (r: Result<(), ScanError>)
        requires
            lo <= hi <= s@.len(),
            fits(s@.len() as int),
            offset + (hi - lo) <= usize::MAX,
        ensures
            *final(self) == with_expression(*old(self), s@, lo as int, hi as int, offset as int, nesting).0,
            r is Ok <==> with_expression(*old(self), s@, lo as int, hi as int, offset as int, nesting).1,
    {
        let trim_start = text::trim_start(s, lo, hi);
        if trim_start >= hi {
            return Ok(());
        }
        if self.first_offset.is_none() {
            self.first_offset = Some(offset + (trim_start - lo));
        }
        let metrics = compute_expression_metrics_in(s, trim_start, hi, nesting, 0)?;
        self.cyclomatic = self.cyclomatic.saturating_add(metrics.cyclomatic);
        self.cognitive = self.cognitive.saturating_add(metrics.cognitive);
        Ok(())
    }

    /// Score one bound JS expression and fold its metrics in; `offset` is the
    /// byte offset of `source` within the template, used to anchor the
    /// finding at the first non-trivial expression.
    pub fn add_expression(&mut self, source: &str, offset: usize, nesting: u16) -> (r: Result<(), ScanError>)
        requires
            fits(source.spec_bytes().len() as int),
            offset + source.spec_bytes().len() <= usize::MAX,
        ensures
            *final(self) == with_expression(
                *old(self),
                source.spec_bytes(),
                0,
                source.spec_bytes().len() as int,
                offset as int,
                nesting,
            ).0,
            r is Ok <==> with_expression(
                *old(self),
                source.spec_bytes(),
                0,
                source.spec_bytes().len() as int,
                offset as int,
                nesting,
            ).1,
    {
        let s = source.as_bytes();
        self.add_expression_in(s, 0, s.len(), offset, nesting)
    }

    /// One control-flow construct: +1 cyclomatic, +1+nesting cognitive.
    pub fn add_control_flow(&mut self, nesting: u16)
        ensures
            *final(self) == with_control_flow(*old(self), nesting),
    {
        self.cyclomatic = self.cyclomatic.saturating_add(1);
        self.cognitive = self.cognitive.saturating_add(nesting.saturating_add(1));
    }
}

// ---------------------------------------------------------------------------
// Markup helpers shared by the template scanners
// ---------------------------------------------------------------------------

pub open spec fn quote2(b: u8) -> bool {
    b == SQUOTE || b == DQUOTE
}

/// Offset of the `>` that closes a tag, scanning from `off` and skipping
/// quoted attribute values.
pub open spec fn tag_end_from(s: Seq<u8>, off: int) -> Option<int>
    decreases if off < s.len() { s.len() - off } else { 0 },
{
    if off >= s.len() || off < 0 {
        None
    } else if quote2(s[off]) {
        match quote_end(s, s.len() as int, off) {
            None => None,
            Some(n) => {
                proof {
                    lemma_quote_end_from_advances(s, s.len() as int, s[off], off + 1);
                }
                tag_end_from(s, n)
            },
        }
    } else if s[off] == GT {
        Some(off)
    } else {
        tag_end_from(s, off + width_of(s[off]))
    }
}

pub proof fn lemma_tag_end_from_bounds(s: Seq<u8>, off: int)
    ensures
        tag_end_from(s, off) matches Some(n) ==> off <= n < s.len() && s[n] == GT,
    decreases if off < s.len() { s.len() - off } else { 0 },
{
    if off >= s.len() || off < 0 {
    } else if quote2(s[off]) {
        lemma_quote_end_from_advances(s, s.len() as int, s[off], off + 1);
        if let Some(n) = quote_end(s, s.len() as int, off) {
            lemma_tag_end_from_bounds(s, n);
        }
    } else if s[off] == GT {
    } else {
        lemma_tag_end_from_bounds(s, off + width_of(s[off]));
    }
}

/// Ends an unquoted attribute value or a tag / attribute name.
pub open spec fn name_stop(b: u8) -> bool {
    ascii_ws(b) || b == SLASH || b == GT
}

/// First offset at or after `e` holding a name stop (or the end of `s`).
pub open spec fn unquoted_end(s: Seq<u8>, e: int) -> int
    decreases if e < s.len() { s.len() - e } else { 0 },
{
    if e >= s.len() || e < 0 || name_stop(s[e]) {
        e
    } else {
        unquoted_end(s, e + 1)
    }
}

/// `(value_start, value_end, next_offset)` of the attribute value at `off`.
pub open spec fn attribute_value(s: Seq<u8>, off: int) -> Option<(int, int, int)> {
    if off >= s.len() || off < 0 {
        None
    } else if quote2(s[off]) {
        match quote_end(s, s.len() as int, off) {
            None => None,
            Some(after) => Some((off + 1, after - 1, after)),
        }
    } else {
        Some((off, unquoted_end(s, off), unquoted_end(s, off)))
    }
}

/// First offset at or after `off` that is not ASCII whitespace.
pub open spec fn ws_run_end(s: Seq<u8>, off: int) -> int
    decreases if off < s.len() { s.len() - off } else { 0 },
{
    if off >= s.len() || off < 0 || !ascii_ws(s[off]) {
        off
    } else {
        ws_run_end(s, off + 1)
    }
}

pub open spec fn ident_start(b: u8) -> bool {
    b == UNDERSCORE || b == DOLLAR || ascii_alpha(b)
}

pub open spec fn ident_continue(b: u8) -> bool {
    ident_start(b) || ascii_digit(b)
}

/// End of the identifier run that continues from `e`.
pub open spec fn ident_end(s: Seq<u8>, e: int) -> int
    decreases if e < s.len() { s.len() - e } else { 0 },
{
    if e >= s.len() || e < 0 || !ident_continue(s[e]) {
        e
    } else {
        ident_end(s, e + 1)
    }
}

pub fn find_tag_end(s: &[u8], tag_start: usize) -> (r: Result<usize, ScanError>)
    requires
        tag_start < s@.len(),
        fits(s@.len() as int),
    ensures
        offset_outcome(r, tag_end_from(s@, tag_start + 1)),
        r matches Ok(n) ==> tag_start < n < s@.len() && s@[n as int] == GT,
{
    let mut offset = tag_start + 1;
    proof {
        lemma_tag_end_from_bounds(s@, offset as int);
    }
    while offset < s.len()
        invariant
            tag_start < offset <= s@.len() + 8,
            fits(s@.len() as int),
            tag_end_from(s@, offset as int) == tag_end_from(s@, tag_start + 1),
        decreases if offset < s@.len() { s@.len() - offset } else { 0 },
    {
        let b = s[offset];
        if b == SQUOTE || b == DQUOTE {
            offset = skip_quoted(s, s.len(), offset)?;
        } else if b == GT {
            return Ok(offset);
        } else {
            offset = offset + text::utf8_width(b);
        }
    }
    Err(ScanError)
}

pub fn read_attribute_value(s: &[u8], offset: usize) -> (r: Result<(usize, usize, usize), ScanError>)
    requires
        fits(s@.len() as int),
    ensures
        match r {
            Ok((a, b, c)) => attribute_value(s@, offset as int) == Some((a as int, b as int, c as int)),
            Err(_) => attribute_value(s@, offset as int) is None,
        },
        r matches Ok((a, b, c)) ==> offset <= a <= b <= c <= s@.len(),
{
    if offset >= s.len() {
        return Err(ScanError);
    }
    let byte = s[offset];
    if byte == SQUOTE || byte == DQUOTE {
        let after = skip_quoted(s, s.len(), offset)?;
        Ok((offset + 1, after - 1, after))
    } else {
        let mut end = offset;
        while end < s.len() && !(text::is_ascii_ws(s[end]) || s[end] == SLASH || s[end] == GT)
            invariant
                offset <= end <= s@.len(),
                unquoted_end(s@, end as int) == unquoted_end(s@, offset as int),
            decreases s@.len() - end,
        {
            end = end + 1;
        }
        Ok((offset, end, end))
    }
}

pub fn skip_whitespace(s: &[u8], offset: usize) -> (r: usize)
    ensures
        r == ws_run_end(s@, offset as int),
        offset <= r,
        offset <= s@.len() ==> r <= s@.len(),
{
    let mut offset = offset;
    let ghost start = offset;
    while offset < s.len() && text::is_ascii_ws(s[offset])
        invariant
            start <= offset,
            start <= s@.len() ==> offset <= s@.len(),
            ws_run_end(s@, offset as int) == ws_run_end(s@, start as int),
        decreases s@.len() - offset,
    {
        offset = offset + 1;
    }
    offset
}

fn is_identifier_start(byte: u8) -> (r: bool)
    ensures
        r == ident_start(byte),
{
    byte == UNDERSCORE || byte == DOLLAR || text::is_ascii_alpha(byte)
}

fn is_identifier_continue(byte: u8) -> (r: bool)
    ensures
        r == ident_continue(byte),
{
    is_identifier_start(byte) || text::is_ascii_digit(byte)
}

/// The identifier starting at `offset`: `Some(end)` with the identifier at
/// `s[offset..end)`, or `None` when no identifier starts there.
pub fn read_identifier(s: &[u8], offset: usize) -> (r: Option<usize>)
    ensures
        r == (if offset < s@.len() && ident_start(s@[offset as int]) {
            Some(ident_end(s@, offset + 1) as usize)
        } else {
            None::<usize>
        }),
        r matches Some(e) ==> offset < e <= s@.len(),
{
    if offset >= s.len() || !is_identifier_start(s[offset]) {
        return None;
    }
    let mut end = offset + 1;
    while end < s.len() && is_identifier_continue(s[end])
        invariant
            offset < end <= s@.len(),
            ident_end(s@, end as int) == ident_end(s@, offset + 1),
        decreases s@.len() - end,
    {
        end = end + 1;
    }
    Some(end)
}

pub fn is_identifier_before(s: &[u8], offset: usize) -> (r: bool)
    requires
        offset <= s@.len(),
    ensures
        r == (offset > 0 && ident_continue(s@[offset - 1])),
{
    offset > 0 && is_identifier_continue(s[offset - 1])
}

pub fn is_identifier_after(s: &[u8], offset: usize) -> (r: bool)
    ensures
        r == (offset < s@.len() && ident_continue(s@[offset as int])),
{
    offset < s.len() && is_identifier_continue(s[offset])
}

} // verus!
