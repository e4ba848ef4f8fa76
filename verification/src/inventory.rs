//! Naming and positions of the functions in a file's coverage inventory.
//!
//! Every function gets a name compatible with the coverage instrumenter: the
//! name its parent gives it (a method key, a variable binding), else its own
//! identifier, else `(anonymous_N)` where `N` counts every function seen so
//! far, named or not. Positions are a 1-based line and a 1-indexed UTF-16
//! column, computed from a table of line start offsets.

use vstd::prelude::*;
use vstd::string::StringSliceAdditionalSpecFns;
use vstd::utf8::{encode_utf8, is_continuation_byte};

use crate::lsp::position::utf16_units;
use crate::text;

verus! {

// ---------------------------------------------------------------------------
// Names
// ---------------------------------------------------------------------------

/// The name of the `n`-th function when nothing names it.
pub open spec fn anonymous_name(n: u32) -> Seq<u8> {
    "(anonymous_".spec_bytes() + text::decimal(n as nat) + ")".spec_bytes()
}

/// Names functions in traversal order.
pub struct FunctionNamer {
    /// The name a parent gave the next function, if any.
    pub pending_name: Option<String>,
    /// How many functions have been named.
    pub anonymous_counter: u32,
}

impl FunctionNamer {
    /// A namer at the start of a file.
    pub fn new() -> (r: Self)
        ensures
            r.pending_name is None,
            r.anonymous_counter == 0,
    {
        FunctionNamer { pending_name: None, anonymous_counter: 0 }
    }

    /// Name the next function, whose own identifier is `explicit`: the
    /// parent's name if one is pending (it is used up), else the identifier,
    /// else `(anonymous_N)` with `N` the counter. The counter advances for
    /// every function.
    pub fn resolve_name(&mut self, explicit: Option<&str>) -> (r: String)
        requires
            old(self).anonymous_counter < u32::MAX,
        ensures
            final(self).anonymous_counter == old(self).anonymous_counter + 1,
            final(self).pending_name is None,
            match old(self).pending_name {
                Some(p) => r@ == p@,
                None => match explicit {
                    Some(e) => r@ == e@,
                    None => encode_utf8(r@) == anonymous_name(old(self).anonymous_counter),
                },
            },
    {
        let n = self.anonymous_counter;
        self.anonymous_counter = n + 1;
        let pending = self.pending_name.take();
        match pending {
            Some(p) => p,
            None => match explicit {
                Some(e) => e.to_owned(),
                None => {
                    let mut out: Vec<u8> = Vec::new();
                    let head = "(anonymous_".as_bytes();
                    let tail = ")".as_bytes();
                    text::push_range(&mut out, head, 0, head.len());
                    text::push_decimal(&mut out, n);
                    text::push_range(&mut out, tail, 0, tail.len());
                    proof {
                        assert(head@.subrange(0, head@.len() as int) =~= head@);
                        assert(tail@.subrange(0, tail@.len() as int) =~= tail@);
                        assert(out@ =~= anonymous_name(n));
                        vstd::utf8::encode_utf8_valid_utf8("(anonymous_"@);
                        vstd::utf8::encode_utf8_valid_utf8(")"@);
                        text::lemma_decimal_valid(n as nat);
                        vstd::utf8::valid_utf8_concat(head@, text::decimal(n as nat));
                        vstd::utf8::valid_utf8_concat(head@ + text::decimal(n as nat), tail@);
                    }
                    match text::utf8_string(out) {
                        Some(st) => st,
                        None => String::new(),
                    }
                },
            },
        }
    }
}

// ---------------------------------------------------------------------------
// Positions
// ---------------------------------------------------------------------------

/// Line start offsets in strictly increasing order.
pub open spec fn strictly_increasing(offsets: Seq<u32>) -> bool {
    forall|i: int, j: int| 0 <= i < j < offsets.len() ==> offsets[i] < offsets[j]
}

/// How many of the first `k` offsets are at or before `x`.
pub open spec fn count_at_or_before(offsets: Seq<u32>, k: int, x: u32) -> nat
    decreases k,
{
    if k <= 0 {
        0
    } else {
        count_at_or_before(offsets, k - 1, x) + if offsets[k - 1] <= x {
            1nat
        } else {
            0nat
        }
    }
}

/// The 0-based line of byte `x`: the last line starting at or before it
/// (the first line when none does).
pub open spec fn line_index(offsets: Seq<u32>, x: u32) -> nat {
    let c = count_at_or_before(offsets, offsets.len() as int, x);
    if c == 0 {
        0
    } else {
        (c - 1) as nat
    }
}

/// `i` is a character boundary of `s` (`str::is_char_boundary`).
pub open spec fn char_boundary(s: Seq<u8>, i: int) -> bool {
    i == 0 || i == s.len() || (0 < i < s.len() && !is_continuation_byte(s[i]))
}

/// Move `p` back, not below `lo`, to a character boundary.
pub open spec fn boundary_floor(s: Seq<u8>, lo: int, p: int) -> int
    decreases p - lo,
{
    if p <= lo || char_boundary(s, p) {
        p
    } else {
        boundary_floor(s, lo, p - 1)
    }
}

/// UTF-16 units of `s[lo..hi)` when that is a valid slice (both ends on
/// character boundaries, in order), else 0.
pub open spec fn slice_utf16(s: Seq<u8>, lo: int, hi: int) -> nat {
    if lo <= hi <= s.len() && char_boundary(s, lo) && char_boundary(s, hi) {
        utf16_units(s, lo, hi)
    } else {
        0
    }
}

proof fn lemma_count_bounds(offsets: Seq<u32>, k: int, x: u32)
    requires
        0 <= k <= offsets.len(),
    ensures
        count_at_or_before(offsets, k, x) <= k,
    decreases k,
{
    if k > 0 {
        lemma_count_bounds(offsets, k - 1, x);
    }
}

/// In increasing offsets, those at or before `x` are a prefix.
proof fn lemma_count_prefix(offsets: Seq<u32>, k: int, x: u32, m: int)
    requires
        strictly_increasing(offsets),
        0 <= m <= k <= offsets.len(),
        forall|i: int| 0 <= i < m ==> offsets[i] <= x,
        forall|i: int| m <= i < offsets.len() ==> offsets[i] > x,
    ensures
        count_at_or_before(offsets, k, x) == m,
    decreases k,
{
    if k > m {
        lemma_count_prefix(offsets, k - 1, x, m);
    } else if k > 0 {
        lemma_count_prefix_full(offsets, k, x);
    }
}

proof fn lemma_count_prefix_full(offsets: Seq<u32>, k: int, x: u32)
    requires
        0 <= k <= offsets.len(),
        forall|i: int| 0 <= i < k ==> offsets[i] <= x,
    ensures
        count_at_or_before(offsets, k, x) == k,
    decreases k,
{
    if k > 0 {
        lemma_count_prefix_full(offsets, k - 1, x);
    }
}

/// How many offsets are at or before `x` (a binary search).
fn count_offsets_at_or_before(offsets: &[u32], x: u32) -> (r: usize)
    requires
        strictly_increasing(offsets@),
    ensures
        r == count_at_or_before(offsets@, offsets@.len() as int, x),
{
    let mut lo: usize = 0;
    let mut hi: usize = offsets.len();
    while lo < hi
        invariant
            lo <= hi <= offsets@.len(),
            strictly_increasing(offsets@),
            forall|i: int| 0 <= i < lo ==> offsets@[i] <= x,
            forall|i: int| hi <= i < offsets@.len() ==> offsets@[i] > x,
        decreases hi - lo,
    {
        let mid = lo + (hi - lo) / 2;
        if offsets[mid] <= x {
            lo = mid + 1;
        } else {
            hi = mid;
        }
    }
    proof {
        lemma_count_prefix(offsets@, offsets@.len() as int, x, lo as int);
    }
    lo
}

/// `(1-based line, 1-indexed UTF-16 column)` of byte `byte_offset` of
/// `source`, whose lines start at `line_offsets`. The column counts UTF-16
/// units from the line start to the byte, moved back to a character
/// boundary; it is 0 (so the result is 1) when that range is not a slice of
/// the source.
pub open spec fn line_col_utf16(source: Seq<u8>, offsets: Seq<u32>, byte_offset: u32) -> (u32, u32) {
    let idx = line_index(offsets, byte_offset);
    let start = offsets[idx as int] as int;
    let end = boundary_floor(source, start, byte_offset as int);
    ((idx + 1) as u32, (slice_utf16(source, start, end) + 1) as u32)
}

/// Map a byte offset to `(1-based line, 1-indexed UTF-16 column)` (see
/// [`line_col_utf16`]).
pub fn line_col_utf16_of(source: &str, line_offsets: &[u32], byte_offset: u32) -> (r: (u32, u32))
    requires
        line_offsets@.len() > 0,
        line_offsets@.len() < u32::MAX,
        strictly_increasing(line_offsets@),
        2 * source.spec_bytes().len() < u32::MAX,
    ensures
        r == line_col_utf16(source.spec_bytes(), line_offsets@, byte_offset),
{
    let s = source.as_bytes();
    let count = count_offsets_at_or_before(line_offsets, byte_offset);
    proof {
        lemma_count_bounds(line_offsets@, line_offsets@.len() as int, byte_offset);
    }
    let line_idx = if count == 0 {
        0
    } else {
        count - 1
    };
    let line = line_idx as u32 + 1;
    let line_start = line_offsets[line_idx] as usize;
    let mut end = byte_offset as usize;
    while end > line_start && !(end == s.len() || (end < s.len() && !(0x80 <= s[end] && s[end] <= 0xbf)))
        invariant
            boundary_floor(s@, line_start as int, end as int) == boundary_floor(
                s@,
                line_start as int,
                byte_offset as int,
            ),
        decreases end,
    {
        end = end - 1;
    }
    let units: usize = if line_start <= end && end <= s.len() && (line_start == 0 || line_start == s.len() || (
    line_start < s.len() && !(0x80 <= s[line_start] && s[line_start] <= 0xbf))) && (end == 0 || end == s.len() || (
    end < s.len() && !(0x80 <= s[end] && s[end] <= 0xbf))) {
        proof {
            lemma_utf16_units_bound(s@, line_start as int, end as int);
        }
        count_utf16(s, line_start, end)
    } else {
        0
    };
    (line, units as u32 + 1)
}

proof fn lemma_utf16_units_bound(s: Seq<u8>, lo: int, hi: int)
    requires
        0 <= lo <= hi <= s.len(),
    ensures
        utf16_units(s, lo, hi) <= 2 * (hi - lo),
    decreases hi - lo,
{
    if lo < hi {
        lemma_utf16_units_bound(s, lo, hi - 1);
    }
}

/// UTF-16 units of `s[lo..hi)`.
fn count_utf16(s: &[u8], lo: usize, hi: usize) -> (r: usize)
    requires
        lo <= hi <= s@.len(),
        2 * s@.len() < u32::MAX,
    ensures
        r == utf16_units(s@, lo as int, hi as int),
        r <= 2 * (hi - lo),
{
    let mut units: usize = 0;
    let mut k = lo;
    while k < hi
        invariant
            lo <= k <= hi <= s@.len(),
            2 * s@.len() < u32::MAX,
            units == utf16_units(s@, lo as int, k as int),
        decreases hi - k,
    {
        proof {
            lemma_utf16_units_bound(s@, lo as int, k + 1);
        }
        let b = s[k];
        if !(0x80 <= b && b <= 0xbf) {
            units = units + 1;
        }
        if b >= 0xf0 {
            units = units + 1;
        }
        k = k + 1;
    }
    proof {
        lemma_utf16_units_bound(s@, lo as int, hi as int);
    }
    units
}


/// The start offsets of the lines of `s`: 0, then one past every line feed.
pub open spec fn line_starts(s: Seq<u8>) -> Seq<u32>
    decreases s.len(),
{
    if s.len() == 0 {
        seq![0u32]
    } else if s.last() == 0x0a {
        line_starts(s.drop_last()).push(s.len() as u32)
    } else {
        line_starts(s.drop_last())
    }
}

proof fn lemma_line_starts_increasing(s: Seq<u8>)
    requires
        s.len() < u32::MAX,
    ensures
        line_starts(s).len() > 0,
        line_starts(s).len() <= s.len() + 1,
        line_starts(s)[0] == 0,
        strictly_increasing(line_starts(s)),
        forall|i: int| 0 <= i < line_starts(s).len() ==> #[trigger] line_starts(s)[i] <= s.len(),
    decreases s.len(),
{
    if s.len() > 0 {
        lemma_line_starts_increasing(s.drop_last());
    }
}

/// The start offset of every line of `source` (see [`line_starts`]).
pub fn compute_line_offsets(source: &str) -> (r: Vec<u32>)
    requires
        source.spec_bytes().len() + 1 < u32::MAX,
    ensures
        r@ == line_starts(source.spec_bytes()),
        r@.len() > 0,
        r@.len() < u32::MAX,
        strictly_increasing(r@),
{
    let s = source.as_bytes();
    let mut offsets: Vec<u32> = Vec::new();
    offsets.push(0);
    let mut i: usize = 0;
    assert(offsets@ =~= line_starts(s@.subrange(0, 0)));
    while i < s.len()
        invariant
            i <= s@.len(),
            s@.len() < u32::MAX,
            offsets@ == line_starts(s@.subrange(0, i as int)),
        decreases s@.len() - i,
    {
        assert(s@.subrange(0, i + 1).drop_last() =~= s@.subrange(0, i as int));
        if s[i] == 0x0a {
            offsets.push((i + 1) as u32);
        }
        i = i + 1;
    }
    assert(s@.subrange(0, i as int) =~= s@);
    proof {
        lemma_line_starts_increasing(s@);
    }
    offsets
}

/// `(1-based line, byte column)` of `byte_offset`: the line is the last one
/// starting at or before it, the column its distance from that line's start.
pub open spec fn line_col(offsets: Seq<u32>, byte_offset: u32) -> (u32, u32) {
    let idx = line_index(offsets, byte_offset);
    let start = offsets[idx as int];
    ((idx + 1) as u32, if byte_offset >= start { (byte_offset - start) as u32 } else { 0 })
}

/// Map a byte offset to `(1-based line, byte column)` (see [`line_col`]).
pub fn byte_offset_to_line_col(line_offsets: &[u32], byte_offset: u32) -> (r: (u32, u32))
    requires
        line_offsets@.len() > 0,
        line_offsets@.len() < u32::MAX,
        strictly_increasing(line_offsets@),
    ensures
        r == line_col(line_offsets@, byte_offset),
        r.0 >= 1,
{
    let count = count_offsets_at_or_before(line_offsets, byte_offset);
    proof {
        lemma_count_bounds(line_offsets@, line_offsets@.len() as int, byte_offset);
    }
    let idx = if count == 0 {
        0
    } else {
        count - 1
    };
    let start = line_offsets[idx];
    (idx as u32 + 1, byte_offset.saturating_sub(start))
}


// ---------------------------------------------------------------------------
// The inventory walk
// ---------------------------------------------------------------------------

/// One function of the inventory: its name, and the line and UTF-16 column
/// where it starts and where it ends.
#[derive(Debug, Clone)]
pub struct InventoryEntry {
    pub name: String,
    pub line: u32,
    pub start_column: u32,
    pub end_line: u32,
    pub end_column: u32,
}

/// An entry as bytes of its name and its four positions.
pub open spec fn entry_view(e: InventoryEntry) -> (Seq<u8>, u32, u32, u32, u32) {
    (encode_utf8(e.name@), e.line, e.start_column, e.end_line, e.end_column)
}

pub open spec fn entries_view(es: Seq<InventoryEntry>) -> Seq<(Seq<u8>, u32, u32, u32, u32)> {
    es.map_values(|e: InventoryEntry| entry_view(e))
}

/// The name the next function gets (as bytes): the pending parent name,
/// else its own identifier, else `(anonymous_N)` with the counter.
pub open spec fn next_name(pending: Option<Seq<char>>, explicit: Option<Seq<char>>, counter: u32) -> Seq<u8> {
    match pending {
        Some(p) => encode_utf8(p),
        None => match explicit {
            Some(e) => encode_utf8(e),
            None => anonymous_name(counter),
        },
    }
}

/// The entry of a function named `name` spanning `[start, end)`.
pub open spec fn site_entry(source: Seq<u8>, offsets: Seq<u32>, name: Seq<u8>, start: u32, end: u32) -> (
    Seq<u8>,
    u32,
    u32,
    u32,
    u32,
) {
    let s = line_col_utf16(source, offsets, start);
    let e = line_col_utf16(source, offsets, end);
    (name, s.0, s.1, e.0, e.1)
}

/// Collects the inventory of one parse as a syntax walk reports what it
/// meets, in traversal order: a method or a variable binding that gives the
/// next function its name, the points where such a name lapses, and each
/// function with its span.
pub struct InventoryWalker<'a> {
    source: &'a str,
    offsets: Vec<u32>,
    namer: FunctionNamer,
    entries: Vec<InventoryEntry>,
}

impl<'a> InventoryWalker<'a> {
    pub closed spec fn source_bytes(&self) -> Seq<u8> {
        self.source.spec_bytes()
    }

    /// The parent name waiting for the next function.
    pub closed spec fn pending(&self) -> Option<Seq<char>> {
        match self.namer.pending_name {
            Some(p) => Some(p@),
            None => None,
        }
    }

    /// How many functions were met.
    pub closed spec fn counter(&self) -> u32 {
        self.namer.anonymous_counter
    }

    /// The entries so far.
    pub closed spec fn recorded(&self) -> Seq<(Seq<u8>, u32, u32, u32, u32)> {
        entries_view(self.entries@)
    }

    pub closed spec fn wf(&self) -> bool {
        &&& self.offsets@ == line_starts(self.source.spec_bytes())
        &&& 2 * self.source.spec_bytes().len() + 1 < u32::MAX
    }

    /// A walker at the start of `source`.
    pub fn new(source: &'a str) -> (r: Self)
        requires
            2 * source.spec_bytes().len() + 1 < u32::MAX,
        ensures
            r.wf(),
            r.source_bytes() == source.spec_bytes(),
            r.pending() is None,
            r.counter() == 0,
            r.recorded() == Seq::<(Seq<u8>, u32, u32, u32, u32)>::empty(),
    {
        let offsets = compute_line_offsets(source);
        let r = InventoryWalker { source, offsets, namer: FunctionNamer::new(), entries: Vec::new() };
        assert(entries_view(r.entries@) =~= Seq::<(Seq<u8>, u32, u32, u32, u32)>::empty());
        r
    }

    /// A method with a static key `name` (when it has one) names the next
    /// function.
    pub fn enter_method(&mut self, name: Option<&str>)
        ensures
            final(self).wf() == old(self).wf(),
            final(self).source_bytes() == old(self).source_bytes(),
            final(self).counter() == old(self).counter(),
            final(self).recorded() == old(self).recorded(),
            final(self).pending() == match name {
                Some(n) => Some(n@),
                None => old(self).pending(),
            },
    {
        if let Some(n) = name {
            self.namer.pending_name = Some(n.to_owned());
        }
    }

    /// A declarator binding the identifier `binding` names the next function
    /// when its initializer is a function or arrow expression.
    pub fn enter_declarator(&mut self, binding: Option<&str>, init_is_function: bool)
        ensures
            final(self).wf() == old(self).wf(),
            final(self).source_bytes() == old(self).source_bytes(),
            final(self).counter() == old(self).counter(),
            final(self).recorded() == old(self).recorded(),
            final(self).pending() == match binding {
                Some(b) => if init_is_function {
                    Some(b@)
                } else {
                    old(self).pending()
                },
                None => old(self).pending(),
            },
    {
        if let Some(b) = binding {
            if init_is_function {
                self.namer.pending_name = Some(b.to_owned());
            }
        }
    }

    /// A pending name lapses: after a method or a declarator, and around an
    /// object property.
    pub fn clear_pending(&mut self)
        ensures
            final(self).wf() == old(self).wf(),
            final(self).source_bytes() == old(self).source_bytes(),
            final(self).counter() == old(self).counter(),
            final(self).recorded() == old(self).recorded(),
            final(self).pending() is None,
    {
        self.namer.pending_name = None;
    }

    /// A function (declaration or expression) spanning `[start, end)` with
    /// its own identifier `explicit`; one without a body (an overload
    /// signature) is not an inventory entry and uses up no name.
    pub fn function(&mut self, explicit: Option<&str>, has_body: bool, start: u32, end: u32)
        requires
            old(self).wf(),
            has_body ==> old(self).counter() < u32::MAX,
        ensures
            final(self).wf(),
            final(self).source_bytes() == old(self).source_bytes(),
            !has_body ==> final(self).counter() == old(self).counter() && final(self).pending() == old(self).pending()
                && final(self).recorded() == old(self).recorded(),
            has_body ==> final(self).counter() == old(self).counter() + 1 && final(self).pending() is None
                && final(self).recorded() == old(self).recorded().push(
                site_entry(
                    old(self).source_bytes(),
                    line_starts(old(self).source_bytes()),
                    next_name(
                        old(self).pending(),
                        match explicit {
                            Some(e) => Some(e@),
                            None => None,
                        },
                        old(self).counter(),
                    ),
                    start,
                    end,
                ),
            ),
    {
        if has_body {
            self.record(explicit, start, end);
        }
    }

    /// An arrow function spanning `[start, end)`.
    pub fn arrow(&mut self, start: u32, end: u32)
        requires
            old(self).wf(),
            old(self).counter() < u32::MAX,
        ensures
            final(self).wf(),
            final(self).source_bytes() == old(self).source_bytes(),
            final(self).counter() == old(self).counter() + 1,
            final(self).pending() is None,
            final(self).recorded() == old(self).recorded().push(
                site_entry(
                    old(self).source_bytes(),
                    line_starts(old(self).source_bytes()),
                    next_name(old(self).pending(), None, old(self).counter()),
                    start,
                    end,
                ),
            ),
    {
        self.record(None, start, end);
    }

    fn record(&mut self, explicit: Option<&str>, start: u32, end: u32)
        requires
            old(self).wf(),
            old(self).counter() < u32::MAX,
        ensures
            final(self).wf(),
            final(self).source_bytes() == old(self).source_bytes(),
            final(self).counter() == old(self).counter() + 1,
            final(self).pending() is None,
            final(self).recorded() == old(self).recorded().push(
                site_entry(
                    old(self).source_bytes(),
                    line_starts(old(self).source_bytes()),
                    next_name(
                        old(self).pending(),
                        match explicit {
                            Some(e) => Some(e@),
                            None => None,
                        },
                        old(self).counter(),
                    ),
                    start,
                    end,
                ),
            ),
    {
        let ghost before = self.entries@;
        let name = self.namer.resolve_name(explicit);
        proof {
            lemma_line_starts_increasing(self.source.spec_bytes());
        }
        let (line, start_column) = line_col_utf16_of(self.source, self.offsets.as_slice(), start);
        let (end_line, end_column) = line_col_utf16_of(self.source, self.offsets.as_slice(), end);
        self.entries.push(InventoryEntry { name, line, start_column, end_line, end_column });
        proof {
            assert(entries_view(self.entries@) =~= entries_view(before).push(entry_view(self.entries@.last())));
        }
    }

    /// How many functions were met.
    pub fn count(&self) -> (r: u32)
        ensures
            r == self.counter(),
    {
        self.namer.anonymous_counter
    }

    /// The entries, in traversal order.
    pub fn into_entries(self) -> (r: Vec<InventoryEntry>)
        ensures
            entries_view(r@) == self.recorded(),
    {
        self.entries
    }
}

// ---------------------------------------------------------------------------
// Which parse the inventory comes from
// ---------------------------------------------------------------------------

/// The language a source is parsed as.
#[derive(Debug, Clone, Copy, PartialEq, Eq, Structural)]
pub enum SourceLanguage {
    JavaScript,
    TypeScript,
    TypeScriptDefinition,
}

/// The module system a source is parsed with.
#[derive(Debug, Clone, Copy, PartialEq, Eq, Structural)]
pub enum SourceModuleKind {
    Script,
    Module,
    Unambiguous,
    CommonJs,
}

/// How a source is parsed: language, module system, and whether JSX is on.
#[derive(Debug, Clone, Copy, PartialEq, Eq, Structural)]
pub struct SourceKind {
    pub language: SourceLanguage,
    pub module_kind: SourceModuleKind,
    pub jsx: bool,
}

/// What `oxc_span::SourceType::from_path` makes of `path` (the default
/// source type when it does not know the extension).
pub uninterp spec fn path_source_kind(path: Seq<char>) -> SourceKind;

/// `SourceType::from_path(path).unwrap_or_default()`, as plain values.
///
/// Trusted: the result is a function of the path alone; the contract names
/// it [`path_source_kind`].
#[verifier::external_body]
fn source_kind_of_path(path: &str) -> (r: SourceKind)
    ensures
        r == path_source_kind(path@),
{
    let t = oxc_span::SourceType::from_path(path).unwrap_or_default();
    let language = if t.is_typescript_definition() {
        SourceLanguage::TypeScriptDefinition
    } else if t.is_typescript() {
        SourceLanguage::TypeScript
    } else {
        SourceLanguage::JavaScript
    };
    let module_kind = match t.module_kind() {
        oxc_span::ModuleKind::Script => SourceModuleKind::Script,
        oxc_span::ModuleKind::Module => SourceModuleKind::Module,
        oxc_span::ModuleKind::Unambiguous => SourceModuleKind::Unambiguous,
        oxc_span::ModuleKind::CommonJS => SourceModuleKind::CommonJs,
    };
    SourceKind { language, module_kind, jsx: t.is_jsx() }
}

/// The kind a JSX retry parses with, when the first kind has no JSX: TSX
/// (TypeScript, unambiguous) for TypeScript, JSX (JavaScript module)
/// otherwise.
pub open spec fn jsx_retry_kind(k: SourceKind) -> Option<SourceKind> {
    if k.jsx {
        None
    } else if k.language is JavaScript {
        Some(SourceKind { language: SourceLanguage::JavaScript, module_kind: SourceModuleKind::Module, jsx: true })
    } else {
        Some(SourceKind { language: SourceLanguage::TypeScript, module_kind: SourceModuleKind::Unambiguous, jsx: true })
    }
}

/// What to do next with a source's inventory: parse with a kind, or take
/// the entries.
pub enum InventoryStep {
    Parse(SourceKind),
    Done(Vec<InventoryEntry>),
}

/// Chooses the parse the inventory of one file comes from: the kind its
/// path gives; when that parse finds no function and has no JSX, one retry
/// with JSX on, whose entries are taken only when it finds some.
pub struct InventoryPlan {
    retry: Option<SourceKind>,
    retrying: bool,
}

impl InventoryPlan {
    pub closed spec fn retry_kind(&self) -> Option<SourceKind> {
        self.retry
    }

    pub closed spec fn is_retrying(&self) -> bool {
        self.retrying
    }

    /// The plan for the file at `path`, and the kind of its first parse.
    pub fn for_path(path: &str) -> (r: (InventoryPlan, SourceKind))
        ensures
            r.1 == path_source_kind(path@),
            r.0.retry_kind() == jsx_retry_kind(r.1),
            !r.0.is_retrying(),
    {
        let kind = source_kind_of_path(path);
        let retry = if kind.jsx {
            None
        } else {
            match kind.language {
                SourceLanguage::JavaScript => Some(
                    SourceKind { language: SourceLanguage::JavaScript, module_kind: SourceModuleKind::Module, jsx: true },
                ),
                _ => Some(
                    SourceKind {
                        language: SourceLanguage::TypeScript,
                        module_kind: SourceModuleKind::Unambiguous,
                        jsx: true,
                    },
                ),
            }
        };
        (InventoryPlan { retry, retrying: false }, kind)
    }

    /// The entries of the parse just made: after the first parse, retry
    /// when it found nothing and a retry kind exists, else done with them;
    /// after the retry, done with its entries when it found some, else with
    /// none.
    pub fn parsed(&mut self, entries: Vec<InventoryEntry>) -> (r: InventoryStep)
        ensures
            final(self).retry_kind() == old(self).retry_kind(),
            !old(self).is_retrying() && entries@.len() == 0 && old(self).retry_kind() is Some
                ==> final(self).is_retrying() && r == InventoryStep::Parse(old(self).retry_kind()->0),
            !old(self).is_retrying() && !(entries@.len() == 0 && old(self).retry_kind() is Some)
                ==> (r matches InventoryStep::Done(v) && v@ == entries@),
            old(self).is_retrying() ==> (r matches InventoryStep::Done(v) && v@ == entries@),
    {
        if !self.retrying {
            if entries.len() == 0 {
                if let Some(k) = self.retry {
                    self.retrying = true;
                    return InventoryStep::Parse(k);
                }
            }
            InventoryStep::Done(entries)
        } else {
            InventoryStep::Done(entries)
        }
    }
}

} // verus!
