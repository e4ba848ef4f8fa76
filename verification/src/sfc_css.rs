//! `<style>` blocks of Vue/Svelte single-file components.
//!
//! The `<style ...>BODY</style>` blocks are found by the `regex` crate; which
//! blocks count (plain CSS or a preprocessor language), the `scoped` and
//! scope-escape tests, the class-token search, the scoped classes a component
//! never uses (given the classes its analysed blocks define) and the "virtual
//! stylesheet" that keeps every block body on its line of the component are
//! proved here.

use vstd::prelude::*;
use vstd::string::StringSliceAdditionalSpecFns;
use vstd::utf8::{decode_utf8, encode_utf8, is_char_boundary, valid_utf8};

use vstd::std_specs::iter::IteratorSpec;

use crate::regex_scan::{boundary_span, ordered_spans, regex_capture_spans, regex_captures_iter, whole_spans, group_seqs};
use crate::text;
use crate::text::{ascii_alnum, bytes_less, bytes_less_exec, lf_count, lower_byte, lower_seq, newlines, seq_contains, DASH, SPACE, UNDERSCORE};

verus! {

/// `<style ...>BODY</style>`, case-insensitive, with `>` allowed inside quoted
/// attribute values; group 1 holds the opening-tag attributes, group 2 the
/// body.
pub const STYLE_BLOCK_PATTERN: &'static str = "(?is)<style\\b(?P<attrs>(?:[^>\"']|\"[^\"]*\"|'[^']*')*)>(?P<body>[\\s\\S]*?)</style>";

// ---------------------------------------------------------------------------
// Block attributes
// ---------------------------------------------------------------------------

/// The lowercased attributes declare `scss`, `sass` or `less`.
pub open spec fn preprocessor_lang(lower: Seq<u8>) -> bool {
    seq_contains(lower, "lang=\"scss\"".spec_bytes())
        || seq_contains(lower, "lang='scss'".spec_bytes())
        || seq_contains(lower, "lang=\"sass\"".spec_bytes())
        || seq_contains(lower, "lang='sass'".spec_bytes())
        || seq_contains(lower, "lang=\"less\"".spec_bytes())
        || seq_contains(lower, "lang='less'".spec_bytes())
}

/// The attributes (any case) declare a language the CSS parser cannot read:
/// a preprocessor, `stylus` or `postcss`.
pub open spec fn non_css_lang(attrs: Seq<u8>) -> bool {
    let lower = lower_seq(attrs);
    preprocessor_lang(lower)
        || seq_contains(lower, "lang=\"stylus\"".spec_bytes())
        || seq_contains(lower, "lang='stylus'".spec_bytes())
        || seq_contains(lower, "lang=\"postcss\"".spec_bytes())
        || seq_contains(lower, "lang='postcss'".spec_bytes())
}

/// A character with the Unicode `White_Space` property (`char::is_whitespace`).
pub open spec fn unicode_white_space(c: char) -> bool {
    let u = c as u32;
    (0x09 <= u && u <= 0x0d) || u == 0x20 || u == 0x85 || u == 0xa0 || u == 0x1680 || (0x2000 <= u
        && u <= 0x200a) || u == 0x2028 || u == 0x2029 || u == 0x202f || u == 0x205f || u == 0x3000
}

/// A character that splits the attribute string into tokens.
pub open spec fn attr_separator(c: char) -> bool {
    unicode_white_space(c) || c == '=' || c == '"' || c == '\''
}

/// `c` is the lowercase ASCII letter `l` in either case.
pub open spec fn ci_letter(c: char, l: char) -> bool {
    c == l || (c as u32) + 32 == l as u32
}

/// `cs[i..i+6)` spells `scoped`, in any ASCII case.
pub open spec fn spells_scoped(cs: Seq<char>, i: int) -> bool {
    &&& 0 <= i && i + 6 <= cs.len()
    &&& ci_letter(cs[i], 's') && ci_letter(cs[i + 1], 'c') && ci_letter(cs[i + 2], 'o')
    &&& ci_letter(cs[i + 3], 'p') && ci_letter(cs[i + 4], 'e') && ci_letter(cs[i + 5], 'd')
}

/// A whole separator-delimited token of `cs` starting at `i` is `scoped`.
pub open spec fn scoped_token_at(cs: Seq<char>, i: int) -> bool {
    &&& spells_scoped(cs, i)
    &&& (i == 0 || attr_separator(cs[i - 1]))
    &&& (i + 6 == cs.len() || attr_separator(cs[i + 6]))
}

/// The attribute string carries a bare `scoped` token.
pub open spec fn scoped_attr(cs: Seq<char>) -> bool {
    exists|i: int| #[trigger] scoped_token_at(cs, i)
}

/// The ASCII lowercase of the bytes (`<[u8]>::to_ascii_lowercase`).
pub fn ascii_lowercase(s: &[u8]) -> (r: Vec<u8>)
    ensures
        r@ == lower_seq(s@),
{
    let mut out: Vec<u8> = Vec::new();
    let mut i: usize = 0;
    while i < s.len()
        invariant
            i <= s@.len(),
            out@ == lower_seq(s@.subrange(0, i as int)),
        decreases s@.len() - i,
    {
        out.push(text::ascii_lower(s[i]));
        assert(lower_seq(s@.subrange(0, i + 1)) =~= lower_seq(s@.subrange(0, i as int)).push(lower_byte(s@[i as int])));
        i = i + 1;
    }
    assert(s@.subrange(0, s@.len() as int) =~= s@);
    out
}

fn lang_value_in(lower: &[u8]) -> (r: bool)
    ensures
        r == preprocessor_lang(lower@),
{
    text::contains(lower, "lang=\"scss\"".as_bytes())
        || text::contains(lower, "lang='scss'".as_bytes())
        || text::contains(lower, "lang=\"sass\"".as_bytes())
        || text::contains(lower, "lang='sass'".as_bytes())
        || text::contains(lower, "lang=\"less\"".as_bytes())
        || text::contains(lower, "lang='less'".as_bytes())
}

/// Whether already-lowercased attributes declare `scss`, `sass` or `less`.
pub fn has_preprocessor_lang_value(lower_attrs: &str) -> (r: bool)
    ensures
        r == preprocessor_lang(lower_attrs.spec_bytes()),
{
    lang_value_in(lower_attrs.as_bytes())
}

/// Whether the attributes declare `scss`, `sass` or `less`, in any case.
pub fn has_preprocessor_lang(attrs: &str) -> (r: bool)
    ensures
        r == preprocessor_lang(lower_seq(attrs.spec_bytes())),
{
    let lower = ascii_lowercase(attrs.as_bytes());
    lang_value_in(lower.as_slice())
}

/// Whether the attributes declare a language the CSS parser cannot read
/// (`scss` / `sass` / `less` / `stylus` / `postcss`).
pub fn has_non_css_lang(attrs: &str) -> (r: bool)
    ensures
        r == non_css_lang(attrs.spec_bytes()),
{
    let lower = ascii_lowercase(attrs.as_bytes());
    let l = lower.as_slice();
    lang_value_in(l)
        || text::contains(l, "lang=\"stylus\"".as_bytes())
        || text::contains(l, "lang='stylus'".as_bytes())
        || text::contains(l, "lang=\"postcss\"".as_bytes())
        || text::contains(l, "lang='postcss'".as_bytes())
}

fn is_attr_separator(c: char) -> (r: bool)
    ensures
        r == attr_separator(c),
{
    let u = c as u32;
    (0x09 <= u && u <= 0x0d) || u == 0x20 || u == 0x85 || u == 0xa0 || u == 0x1680 || (0x2000 <= u
        && u <= 0x200a) || u == 0x2028 || u == 0x2029 || u == 0x202f || u == 0x205f || u == 0x3000
        || c == '=' || c == '"' || c == '\''
}

fn is_ci_letter(c: char, l: char) -> (r: bool)
    requires
        0x61 <= l as u32 <= 0x7a,
    ensures
        r == ci_letter(c, l),
{
    c == l || (c as u32) + 32 == l as u32
}

/// The characters of `s`.
pub(crate) fn chars_of(s: &str) -> (r: Vec<char>)
    ensures
        r@ == s@,
{
    broadcast use vstd::string::axiom_spec_iter, vstd::string::next_postcondition;

    let mut it = s.chars();
    let mut v: Vec<char> = Vec::new();
    loop
        invariant
            v@ + it.remaining() == s@,
            it.decrease() is Some,
        ensures
            v@ == s@,
        decreases it.decrease()->0,
    {
        let ghost before = it.remaining();
        match it.next() {
            Some(c) => {
                v.push(c);
                assert(v@ + it.remaining() =~= s@) by {
                    assert(before =~= seq![c] + it.remaining());
                }
            },
            None => {
                assert(v@ =~= s@);
                break;
            },
        }
    }
    v
}

/// Whether an opening-`<style>` attribute string carries a bare `scoped`
/// attribute (split on whitespace, `=` and quotes; any ASCII case).
pub fn has_scoped_attr(attrs: &str) -> (r: bool)
    ensures
        r == scoped_attr(attrs@),
{
    let cs = chars_of(attrs);
    let n = cs.len();
    if n < 6 {
        assert forall|i: int| !#[trigger] scoped_token_at(cs@, i) by {}
        return false;
    }
    let mut i: usize = 0;
    while i <= n - 6
        invariant
            n == cs@.len(),
            cs@ == attrs@,
            6 <= n,
            i <= n - 5,
            forall|j: int| 0 <= j < i ==> !#[trigger] scoped_token_at(cs@, j),
        decreases n - i,
    {
        let hit = is_ci_letter(cs[i], 's') && is_ci_letter(cs[i + 1], 'c') && is_ci_letter(cs[i + 2], 'o')
            && is_ci_letter(cs[i + 3], 'p') && is_ci_letter(cs[i + 4], 'e') && is_ci_letter(cs[i + 5], 'd')
            && (i == 0 || is_attr_separator(cs[i - 1])) && (i + 6 == n || is_attr_separator(cs[i + 6]));
        if hit {
            assert(scoped_token_at(cs@, i as int));
            return true;
        }
        i = i + 1;
    }
    assert forall|j: int| !#[trigger] scoped_token_at(cs@, j) by {}
    false
}

/// The block's classes escape the component (`:global`, `:deep`,
/// `::v-deep`, `/deep/`) or are pulled in by name (`@apply`).
pub open spec fn escapes_scope(body: Seq<u8>) -> bool {
    seq_contains(body, ":global".spec_bytes())
        || seq_contains(body, ":deep".spec_bytes())
        || seq_contains(body, "::v-deep".spec_bytes())
        || seq_contains(body, "/deep/".spec_bytes())
        || seq_contains(body, "@apply".spec_bytes())
}

/// Whether a `<style scoped>` body must be skipped wholesale (see
/// [`escapes_scope`]).
pub fn block_escapes_scope(body: &str) -> (r: bool)
    ensures
        r == escapes_scope(body.spec_bytes()),
{
    let b = body.as_bytes();
    text::contains(b, ":global".as_bytes())
        || text::contains(b, ":deep".as_bytes())
        || text::contains(b, "::v-deep".as_bytes())
        || text::contains(b, "/deep/".as_bytes())
        || text::contains(b, "@apply".as_bytes())
}

// ---------------------------------------------------------------------------
// Blanking and class-token search
// ---------------------------------------------------------------------------

/// Byte `i` lies in one of the usable ranges (`start <= end <= len`).
pub open spec fn in_some_range(ranges: Seq<(usize, usize)>, len: int, i: int) -> bool {
    exists|k: int|
        0 <= k < ranges.len() && (#[trigger] ranges[k]).0 <= ranges[k].1 <= len && ranges[k].0 <= i
            < ranges[k].1
}

/// `s` with every byte inside a usable range replaced by a space.
pub open spec fn blanked(s: Seq<u8>, ranges: Seq<(usize, usize)>) -> Seq<u8> {
    Seq::new(s.len(), |i: int| if in_some_range(ranges, s.len() as int, i) { SPACE } else { s[i] })
}

/// Replace the given byte ranges of `source` with spaces (length preserved;
/// ranges with `start > end` or past the end are ignored). When the blanked
/// bytes are no longer valid UTF-8 the source is returned unchanged.
pub fn blank_ranges(source: &str, ranges: &[(usize, usize)]) -> (r: String)
    ensures
        valid_utf8(blanked(source.spec_bytes(), ranges@)) ==> encode_utf8(r@) == blanked(
            source.spec_bytes(),
            ranges@,
        ),
        !valid_utf8(blanked(source.spec_bytes(), ranges@)) ==> r@ == source@,
{
    let s = source.as_bytes();
    let mut out: Vec<u8> = Vec::new();
    text::push_range(&mut out, s, 0, s.len());
    assert(out@ =~= s@);
    let mut k: usize = 0;
    while k < ranges.len()
        invariant
            k <= ranges@.len(),
            out@.len() == s@.len(),
            forall|i: int|
                0 <= i < s@.len() ==> #[trigger] out@[i] == if in_some_range(ranges@.subrange(0, k as int), s@.len() as int, i) {
                    SPACE
                } else {
                    s@[i]
                },
        decreases ranges@.len() - k,
    {
        let (start, end) = ranges[k];
        let ghost before = out@;
        if start <= end && end <= out.len() {
            let mut i = start;
            while i < end
                invariant
                    start <= i <= end <= out@.len(),
                    out@.len() == before.len(),
                    forall|j: int| 0 <= j < out@.len() ==> #[trigger] out@[j] == if start <= j < i {
                        SPACE
                    } else {
                        before[j]
                    },
                decreases end - i,
            {
                out.set(i, SPACE);
                i = i + 1;
            }
        }
        proof {
            let len = s@.len() as int;
            let pre = ranges@.subrange(0, k as int);
            let post = ranges@.subrange(0, k + 1);
            assert(post[k as int] == (start, end));
            assert forall|i: int| 0 <= i < len implies #[trigger] out@[i] == if in_some_range(post, len, i) {
                SPACE
            } else {
                s@[i]
            } by {
                let here = start <= end && end <= len && start <= i < end;
                if here {
                    assert(post[k as int].0 <= post[k as int].1 <= len && post[k as int].0 <= i < post[k as int].1);
                    assert(in_some_range(post, len, i));
                }
                if in_some_range(pre, len, i) {
                    let q = choose|q: int| 0 <= q < pre.len() && (#[trigger] pre[q]).0 <= pre[q].1 <= len && pre[q].0 <= i < pre[q].1;
                    assert(post[q] == pre[q]);
                    assert(in_some_range(post, len, i));
                }
                if in_some_range(post, len, i) && !here {
                    let q = choose|q: int| 0 <= q < post.len() && (#[trigger] post[q]).0 <= post[q].1 <= len && post[q].0 <= i < post[q].1;
                    if q < k {
                        assert(pre[q] == post[q]);
                        assert(in_some_range(pre, len, i));
                    }
                }
            }
        }
        k = k + 1;
    }
    assert(ranges@.subrange(0, k as int) =~= ranges@);
    assert(out@ =~= blanked(s@, ranges@));
    match text::utf8_string(out) {
        Some(st) => st,
        None => source.to_owned(),
    }
}

/// A byte that continues a class identifier: ASCII alphanumeric, `_`, `-`.
pub open spec fn identifier_byte(b: u8) -> bool {
    ascii_alnum(b) || b == UNDERSCORE || b == DASH
}

/// Whether `byte` continues a class identifier.
pub fn is_identifier_byte(byte: u8) -> (r: bool)
    ensures
        r == identifier_byte(byte),
{
    (0x30 <= byte && byte <= 0x39) || (0x41 <= byte && byte <= 0x5a) || (0x61 <= byte && byte <= 0x7a)
        || byte == UNDERSCORE || byte == DASH
}

/// `n` occurs in `t` at byte offset `p`.
pub open spec fn occurs_at(t: Seq<u8>, n: Seq<u8>, p: int) -> bool {
    0 <= p && p + n.len() <= t.len() && t.subrange(p, p + n.len()) == n
}

/// `n` occurs in `t` at `p` as a whole token: not preceded or followed by an
/// identifier byte.
pub open spec fn whole_token_at(t: Seq<u8>, n: Seq<u8>, p: int) -> bool {
    &&& occurs_at(t, n, p)
    &&& (p == 0 || !identifier_byte(t[p - 1]))
    &&& (p + n.len() >= t.len() || !identifier_byte(t[p + n.len()]))
}

/// The search does not step into the middle of a character: the name starts
/// with an ASCII byte, or every non-whole occurrence comes after a whole one.
pub open spec fn token_search_in_bounds(t: Seq<u8>, n: Seq<u8>) -> bool {
    n.len() == 0 || n[0] < 0x80 || forall|p: int|
        #[trigger] occurs_at(t, n, p) && !whole_token_at(t, n, p) ==> exists|q: int|
            q < p && #[trigger] whole_token_at(t, n, q)
}

/// Whether `name` appears in `text` as a whole class token (not inside a
/// longer identifier: `foo` does not match in `foo-bar`). An empty name never
/// appears.
pub fn class_token_appears(text: &str, name: &str) -> (r: bool)
    requires
        token_search_in_bounds(text.spec_bytes(), name.spec_bytes()),
    ensures
        r == (name.spec_bytes().len() > 0 && exists|p: int| #[trigger] whole_token_at(text.spec_bytes(), name.spec_bytes(), p)),
{
    let t = text.as_bytes();
    let n = name.as_bytes();
    let len = n.len();
    if len == 0 {
        return false;
    }
    if len > t.len() {
        assert forall|p: int| !#[trigger] whole_token_at(t@, n@, p) by {}
        return false;
    }
    let mut p: usize = 0;
    while p <= t.len() - len
        invariant
            len == n@.len(),
            1 <= len <= t@.len(),
            t@ == text.spec_bytes(),
            n@ == name.spec_bytes(),
            p <= t@.len() - len + 1,
            forall|q: int| 0 <= q < p ==> !#[trigger] whole_token_at(t@, n@, q),
        decreases t@.len() - len + 1 - p,
    {
        if text::range_eq(t, p, p + len, n) {
            let before_ok = p == 0 || !is_identifier_byte(t[p - 1]);
            let after_ok = p + len >= t.len() || !is_identifier_byte(t[p + len]);
            if before_ok && after_ok {
                assert(whole_token_at(t@, n@, p as int));
                return true;
            }
        }
        p = p + 1;
    }
    assert forall|q: int| !#[trigger] whole_token_at(t@, n@, q) by {}
    false
}

// ---------------------------------------------------------------------------
// Virtual stylesheets
// ---------------------------------------------------------------------------

/// Group `g` of one match, if present.
pub open spec fn group_of(c: Seq<Option<(usize, usize)>>, g: int) -> Option<(usize, usize)> {
    if 0 <= g < c.len() {
        c[g]
    } else {
        None
    }
}

/// The attribute bytes of a style-block match (empty without group 1).
pub open spec fn attrs_of(s: Seq<u8>, c: Seq<Option<(usize, usize)>>) -> Seq<u8> {
    match group_of(c, 1) {
        Some(sp) => s.subrange(sp.0 as int, sp.1 as int),
        None => seq![],
    }
}

/// Which blocks a stylesheet takes: the plain-CSS ones, or (`preprocessor`)
/// the `scss` / `sass` / `less` ones.
pub open spec fn block_selected(attrs: Seq<u8>, preprocessor: bool) -> bool {
    if preprocessor {
        preprocessor_lang(lower_seq(attrs))
    } else {
        !non_css_lang(attrs)
    }
}

/// A block whose attributes (in any case) say `lang="scss"`, `"sass"` or
/// `"less"` (either quote) is a preprocessor block: it goes to the
/// preprocessor stylesheet and never to the plain-CSS one; these six
/// spellings are the only ones that make a preprocessor block. No block goes
/// to both stylesheets.
pub proof fn lemma_preprocessor_blocks(attrs: Seq<u8>)
    ensures
        ({
            let lower = lower_seq(attrs);
            (seq_contains(lower, "lang=\"scss\"".spec_bytes()) || seq_contains(lower, "lang='scss'".spec_bytes())
                || seq_contains(lower, "lang=\"sass\"".spec_bytes()) || seq_contains(lower, "lang='sass'".spec_bytes())
                || seq_contains(lower, "lang=\"less\"".spec_bytes()) || seq_contains(lower, "lang='less'".spec_bytes()))
                ==> preprocessor_lang(lower) && non_css_lang(attrs) && block_selected(attrs, true) && !block_selected(
                attrs,
                false,
            )
        }),
        preprocessor_lang(lower_seq(attrs)) ==> ({
            let lower = lower_seq(attrs);
            seq_contains(lower, "lang=\"scss\"".spec_bytes()) || seq_contains(lower, "lang='scss'".spec_bytes())
                || seq_contains(lower, "lang=\"sass\"".spec_bytes()) || seq_contains(lower, "lang='sass'".spec_bytes())
                || seq_contains(lower, "lang=\"less\"".spec_bytes()) || seq_contains(lower, "lang='less'".spec_bytes())
        }),
        !(block_selected(attrs, true) && block_selected(attrs, false)),
{
}

/// The virtual stylesheet of the first `k` style-block matches: its bytes, the
/// source offset where the last placed body ends, whether any body was placed,
/// and for each placed body `(offset in the stylesheet, source start, source
/// end)`. Each selected body is preceded by as many line feeds as the source
/// has between the previous placed body and it.
pub open spec fn sheet_fold(
    s: Seq<u8>,
    caps: Seq<Seq<Option<(usize, usize)>>>,
    k: int,
    preprocessor: bool,
) -> (Seq<u8>, int, bool, Seq<(int, int, int)>)
    decreases k,
{
    if k <= 0 {
        (seq![], 0, false, seq![])
    } else {
        let st = sheet_fold(s, caps, k - 1, preprocessor);
        let c = caps[k - 1];
        if block_selected(attrs_of(s, c), preprocessor) && group_of(c, 2) is Some {
            let b = group_of(c, 2).unwrap();
            let padded = st.0 + newlines(lf_count(s, st.1, b.0 as int));
            (
                padded + s.subrange(b.0 as int, b.1 as int),
                b.1 as int,
                true,
                st.3.push((padded.len() as int, b.0 as int, b.1 as int)),
            )
        } else {
            st
        }
    }
}

pub open spec fn captures_or_empty(o: Option<Seq<Seq<Option<(usize, usize)>>>>) -> Seq<Seq<Option<(usize, usize)>>> {
    match o {
        Some(v) => v,
        None => seq![],
    }
}

/// The style-block matches of `source`.
pub open spec fn style_block_captures(source: &str) -> Seq<Seq<Option<(usize, usize)>>> {
    captures_or_empty(regex_capture_spans(STYLE_BLOCK_PATTERN@, source@))
}

/// The virtual stylesheet of `source` (see [`sheet_fold`]).
pub open spec fn virtual_sheet(source: &str, preprocessor: bool) -> (Seq<u8>, int, bool, Seq<(int, int, int)>) {
    sheet_fold(source.spec_bytes(), style_block_captures(source), style_block_captures(source).len() as int, preprocessor)
}

/// Every placed body sits in the stylesheet verbatim, after exactly as many
/// line feeds as precede it in the source: it keeps its source line.
pub open spec fn bodies_keep_lines(out: Seq<u8>, s: Seq<u8>, places: Seq<(int, int, int)>) -> bool {
    forall|j: int|
        0 <= j < places.len() ==> {
            let (p, a, b) = #[trigger] places[j];
            &&& 0 <= p && p + (b - a) <= out.len()
            &&& 0 <= a <= b <= s.len()
            &&& out.subrange(p, p + (b - a)) == s.subrange(a, b)
            &&& lf_count(out, 0, p) == lf_count(s, 0, a)
        }
}

/// Appending the padding and the next body keeps the stylesheet valid UTF-8,
/// keeps its line count equal to the source's up to the body's end, and keeps
/// every body on its source line.
proof fn lemma_sheet_append(prev: Seq<u8>, s: Seq<u8>, last_end: int, b0: int, b1: int, places: Seq<(int, int, int)>)
    requires
        valid_utf8(s),
        valid_utf8(prev),
        0 <= last_end <= b0 <= b1 <= s.len(),
        is_char_boundary(s, b0),
        is_char_boundary(s, b1),
        lf_count(prev, 0, prev.len() as int) == lf_count(s, 0, last_end),
        bodies_keep_lines(prev, s, places),
    ensures
        ({
            let padded = prev + newlines(lf_count(s, last_end, b0));
            let out = padded + s.subrange(b0, b1);
            &&& valid_utf8(out)
            &&& lf_count(out, 0, out.len() as int) == lf_count(s, 0, b1)
            &&& bodies_keep_lines(out, s, places.push((padded.len() as int, b0, b1)))
        }),
{
    let pad = lf_count(s, last_end, b0);
    let nl = newlines(pad);
    let padded = prev + nl;
    let body = s.subrange(b0, b1);
    let out = padded + body;
    text::lemma_valid_subrange(s, b0, b1);
    text::lemma_newlines(pad);
    vstd::utf8::valid_utf8_concat(prev, nl);
    vstd::utf8::valid_utf8_concat(padded, body);
    text::lemma_lf_count_concat(prev, nl, 0);
    text::lemma_lf_count_concat(padded, body, 0);
    text::lemma_lf_count_sub(s, b0, b1);
    assert(s.subrange(b0, b1).subrange(0, b1 - b0) =~= body);
    text::lemma_lf_count_split(s, 0, last_end, b0);
    text::lemma_lf_count_split(s, 0, b0, b1);
    let places2 = places.push((padded.len() as int, b0, b1));
    assert(out =~= prev + (nl + body));
    assert forall|j: int| 0 <= j < places2.len() implies {
        let (p, a, b) = #[trigger] places2[j];
        &&& 0 <= p && p + (b - a) <= out.len()
        &&& 0 <= a <= b <= s.len()
        &&& out.subrange(p, p + (b - a)) == s.subrange(a, b)
        &&& lf_count(out, 0, p) == lf_count(s, 0, a)
    } by {
        let (p, a, b) = places2[j];
        if j < places.len() {
            assert(places2[j] == places[j]);
            text::lemma_lf_count_concat(prev, nl + body, p);
            assert(out.subrange(p, p + (b - a)) =~= prev.subrange(p, p + (b - a)));
        } else {
            text::lemma_lf_count_concat(padded, body, p);
            assert(out.subrange(p, p + (b - a)) =~= body);
        }
    }
}

fn build_virtual_stylesheet(source: &str, preprocessor: bool) -> (r: Option<String>)
    ensures
        r is Some <==> virtual_sheet(source, preprocessor).2,
        r matches Some(o) ==> encode_utf8(o@) == virtual_sheet(source, preprocessor).0,
        bodies_keep_lines(virtual_sheet(source, preprocessor).0, source.spec_bytes(), virtual_sheet(source, preprocessor).3),
{
    let caps = match regex_captures_iter(STYLE_BLOCK_PATTERN, source) {
        Some(c) => c,
        None => Vec::new(),
    };
    assert(style_block_captures(source) =~= group_seqs(caps@));
    stylesheet_from_blocks(source, &caps, preprocessor)
}

/// The virtual stylesheet of `source` given the captures `caps` of
/// [`STYLE_BLOCK_PATTERN`] (per match, group 0 present; every present group
/// on character boundaries inside the whole match; whole matches in order,
/// not overlapping): see [`sheet_fold`]. `None` when no block is selected.
pub fn stylesheet_from_blocks(source: &str, caps: &Vec<Vec<Option<(usize, usize)>>>, preprocessor: bool) -> (r: Option<
    String,
>)
    requires
        forall|x: int| 0 <= x < caps@.len() ==> (#[trigger] caps@[x])@.len() >= 1 && caps@[x]@[0] is Some,
        forall|x: int, g: int|
            0 <= x < caps@.len() && 0 <= g < caps@[x]@.len() && (#[trigger] caps@[x]@[g]) is Some
                ==> boundary_span(source.spec_bytes(), caps@[x]@[g].unwrap()) && caps@[x]@[0].unwrap().0
                <= caps@[x]@[g].unwrap().0 && caps@[x]@[g].unwrap().1 <= caps@[x]@[0].unwrap().1,
        ordered_spans(whole_spans(group_seqs(caps@))),
    ensures
        r is Some <==> sheet_fold(source.spec_bytes(), group_seqs(caps@), caps@.len() as int, preprocessor).2,
        r matches Some(o) ==> encode_utf8(o@) == sheet_fold(
            source.spec_bytes(),
            group_seqs(caps@),
            caps@.len() as int,
            preprocessor,
        ).0,
        bodies_keep_lines(
            sheet_fold(source.spec_bytes(), group_seqs(caps@), caps@.len() as int, preprocessor).0,
            source.spec_bytes(),
            sheet_fold(source.spec_bytes(), group_seqs(caps@), caps@.len() as int, preprocessor).3,
        ),
{
    let s = source.as_bytes();
    let ghost cs = group_seqs(caps@);
    proof {
        vstd::utf8::encode_utf8_valid_utf8(source@);
    }
    let mut out: Vec<u8> = Vec::new();
    let mut last_end: usize = 0;
    let mut found = false;
    let mut k: usize = 0;
    while k < caps.len()
        invariant
            s@ == source.spec_bytes(),
            valid_utf8(s@),
            cs == group_seqs(caps@),
            k <= caps@.len(),
            forall|x: int| 0 <= x < caps@.len() ==> (#[trigger] caps@[x])@.len() >= 1 && caps@[x]@[0] is Some,
            forall|x: int, g: int|
                0 <= x < caps@.len() && 0 <= g < caps@[x]@.len() && (#[trigger] caps@[x]@[g]) is Some
                    ==> boundary_span(s@, caps@[x]@[g].unwrap()) && caps@[x]@[0].unwrap().0
                    <= caps@[x]@[g].unwrap().0 && caps@[x]@[g].unwrap().1 <= caps@[x]@[0].unwrap().1,
            ordered_spans(whole_spans(cs)),
            last_end <= s@.len(),
            forall|x: int| k <= x < caps@.len() ==> last_end <= (#[trigger] caps@[x])@[0].unwrap().0,
            out@ == sheet_fold(s@, cs, k as int, preprocessor).0,
            last_end == sheet_fold(s@, cs, k as int, preprocessor).1,
            found == sheet_fold(s@, cs, k as int, preprocessor).2,
            valid_utf8(out@),
            lf_count(out@, 0, out@.len() as int) == lf_count(s@, 0, last_end as int),
            bodies_keep_lines(out@, s@, sheet_fold(s@, cs, k as int, preprocessor).3),
        decreases caps@.len() - k,
    {
        let c = &caps[k];
        assert(cs[k as int] == c@);
        let ghost whole = c@[0].unwrap();
        proof {
            assert forall|x: int| k < x < caps@.len() implies whole.1 <= (#[trigger] caps@[x])@[0].unwrap().0 by {
                assert(whole_spans(cs)[k as int] == whole);
                assert(whole_spans(cs)[x] == caps@[x]@[0].unwrap());
            }
        }
        let attrs_span = if c.len() > 1 {
            c[1]
        } else {
            None
        };
        let selected = match attrs_span {
            Some((a0, a1)) => {
                proof {
                    assert(boundary_span(s@, c@[1].unwrap()));
                }
                let attrs = text::substring(source, a0, a1);
                if preprocessor {
                    has_preprocessor_lang(attrs)
                } else {
                    !has_non_css_lang(attrs)
                }
            },
            None => {
                if preprocessor {
                    has_preprocessor_lang("")
                } else {
                    !has_non_css_lang("")
                }
            },
        };
        proof {
            if attrs_span is None {
                reveal_strlit("");
                assert("".spec_bytes() =~= attrs_of(s@, c@));
            }
        }
        assert(selected == block_selected(attrs_of(s@, c@), preprocessor));
        let body_span = if c.len() > 2 {
            c[2]
        } else {
            None
        };
        assert(body_span == group_of(c@, 2));
        if selected && body_span.is_some() {
            let (b0, b1) = body_span.unwrap();
            proof {
                assert(boundary_span(s@, c@[2].unwrap()));
                assert(last_end <= whole.0);
            }
            let ghost prev = out@;
            let pad = text::count_lf(s, last_end, b0);
            text::push_newlines(&mut out, pad);
            text::push_range(&mut out, s, b0, b1);
            proof {
                lemma_sheet_append(prev, s@, last_end as int, b0 as int, b1 as int, sheet_fold(s@, cs, k as int, preprocessor).3);
            }
            last_end = b1;
            found = true;
        }
        k = k + 1;
    }
    assert(cs.len() == caps@.len());
    if found {
        text::utf8_string(out)
    } else {
        None
    }
}

/// A "virtual stylesheet" of the component's plain-CSS `<style>` blocks (any
/// scoping): each block body is placed at its line of the component by
/// line-feed padding, so line numbers in it map straight back onto the
/// component. `None` when the component has no plain-CSS `<style>` block
/// (only `lang="scss"` blocks, say).
pub fn sfc_virtual_stylesheet(source: &str) -> (r: Option<String>)
    ensures
        r is Some <==> virtual_sheet(source, false).2,
        r matches Some(o) ==> encode_utf8(o@) == virtual_sheet(source, false).0,
        bodies_keep_lines(virtual_sheet(source, false).0, source.spec_bytes(), virtual_sheet(source, false).3),
{
    build_virtual_stylesheet(source, false)
}

/// The virtual stylesheet of the component's `scss` / `sass` / `less`
/// `<style>` blocks, bodies kept on their component lines as in
/// [`sfc_virtual_stylesheet`]; `None` when there is no such block.
pub fn sfc_preprocessor_virtual_stylesheet(source: &str) -> (r: Option<String>)
    ensures
        r is Some <==> virtual_sheet(source, true).2,
        r matches Some(o) ==> encode_utf8(o@) == virtual_sheet(source, true).0,
        bodies_keep_lines(virtual_sheet(source, true).0, source.spec_bytes(), virtual_sheet(source, true).3),
{
    build_virtual_stylesheet(source, true)
}


// ---------------------------------------------------------------------------
// Scoped classes nobody uses
// ---------------------------------------------------------------------------

/// The body bytes of a style-block match (empty without group 2).
pub open spec fn body_of(s: Seq<u8>, c: Seq<Option<(usize, usize)>>) -> Seq<u8> {
    match group_of(c, 2) {
        Some(sp) => s.subrange(sp.0 as int, sp.1 as int),
        None => seq![],
    }
}

/// A block whose classes are checked for use: `scoped`, plain CSS, and with
/// nothing that lets its classes escape the component.
pub open spec fn analyzed_block(s: Seq<u8>, c: Seq<Option<(usize, usize)>>) -> bool {
    &&& scoped_attr(decode_utf8(attrs_of(s, c)))
    &&& !non_css_lang(attrs_of(s, c))
    &&& !escapes_scope(body_of(s, c))
}

/// The bodies of the analysed blocks among the first `k` matches, in order.
pub open spec fn analyzed_bodies(s: Seq<u8>, cs: Seq<Seq<Option<(usize, usize)>>>, k: int) -> Seq<Seq<u8>>
    decreases k,
{
    if k <= 0 {
        seq![]
    } else {
        let prev = analyzed_bodies(s, cs, k - 1);
        if analyzed_block(s, cs[k - 1]) {
            prev.push(body_of(s, cs[k - 1]))
        } else {
            prev
        }
    }
}

/// The UTF-8 bytes of each string.
pub open spec fn strings_bytes(v: Seq<String>) -> Seq<Seq<u8>> {
    v.map_values(|x: String| encode_utf8(x@))
}

/// The `<style>` blocks of a component as the unused-class check sees them:
/// the span of every block (tags included) and the bodies of the analysed
/// ones.
pub struct ScopedStyleBlocks {
    pub style_ranges: Vec<(usize, usize)>,
    pub bodies: Vec<String>,
}

/// Split the style-block captures `caps` of [`STYLE_BLOCK_PATTERN`] (per
/// match, group 0 present; every present group on character boundaries
/// inside the whole match) into the spans of all blocks and the bodies of the
/// analysed ones (see [`analyzed_block`]).
pub fn scoped_blocks_from_captures(source: &str, caps: &Vec<Vec<Option<(usize, usize)>>>) -> (r: ScopedStyleBlocks)
    requires
        forall|x: int| 0 <= x < caps@.len() ==> (#[trigger] caps@[x])@.len() >= 1 && caps@[x]@[0] is Some,
        forall|x: int, g: int|
            0 <= x < caps@.len() && 0 <= g < caps@[x]@.len() && (#[trigger] caps@[x]@[g]) is Some
                ==> boundary_span(source.spec_bytes(), caps@[x]@[g].unwrap()),
    ensures
        r.style_ranges@ == whole_spans(group_seqs(caps@)),
        strings_bytes(r.bodies@) == analyzed_bodies(source.spec_bytes(), group_seqs(caps@), caps@.len() as int),
{
    let s = source.as_bytes();
    let ghost cs = group_seqs(caps@);
    let mut style_ranges: Vec<(usize, usize)> = Vec::new();
    let mut bodies: Vec<String> = Vec::new();
    let mut k: usize = 0;
    while k < caps.len()
        invariant
            s@ == source.spec_bytes(),
            cs == group_seqs(caps@),
            k <= caps@.len(),
            forall|x: int| 0 <= x < caps@.len() ==> (#[trigger] caps@[x])@.len() >= 1 && caps@[x]@[0] is Some,
            forall|x: int, g: int|
                0 <= x < caps@.len() && 0 <= g < caps@[x]@.len() && (#[trigger] caps@[x]@[g]) is Some
                    ==> boundary_span(s@, caps@[x]@[g].unwrap()),
            style_ranges@ == whole_spans(cs.subrange(0, k as int)),
            strings_bytes(bodies@) == analyzed_bodies(s@, cs, k as int),
        decreases caps@.len() - k,
    {
        let c = &caps[k];
        assert(cs[k as int] == c@);
        let whole = c[0].unwrap();
        let ghost prev_ranges = style_ranges@;
        style_ranges.push(whole);
        proof {
            assert(cs.subrange(0, k + 1) =~= cs.subrange(0, k as int).push(c@));
            assert(style_ranges@ =~= whole_spans(cs.subrange(0, k + 1)));
        }
        let attrs: &str = if c.len() > 1 && c[1].is_some() {
            let (a0, a1) = c[1].unwrap();
            proof {
                assert(boundary_span(s@, c@[1].unwrap()));
            }
            text::substring(source, a0, a1)
        } else {
            proof {
                reveal_strlit("");
            }
            ""
        };
        let body: &str = if c.len() > 2 && c[2].is_some() {
            let (b0, b1) = c[2].unwrap();
            proof {
                assert(boundary_span(s@, c@[2].unwrap()));
            }
            text::substring(source, b0, b1)
        } else {
            proof {
                reveal_strlit("");
            }
            ""
        };
        assert(attrs.spec_bytes() =~= attrs_of(s@, c@));
        assert(body.spec_bytes() =~= body_of(s@, c@));
        proof {
            vstd::utf8::encode_utf8_decode_utf8(attrs@);
        }
        let analyzed = has_scoped_attr(attrs) && !has_non_css_lang(attrs) && !block_escapes_scope(body);
        assert(analyzed == analyzed_block(s@, c@));
        if analyzed {
            let ghost prev = bodies@;
            bodies.push(body.to_owned());
            assert(strings_bytes(bodies@) =~= strings_bytes(prev).push(body_of(s@, c@)));
        }
        k = k + 1;
    }
    assert(cs.subrange(0, k as int) =~= cs);
    ScopedStyleBlocks { style_ranges, bodies }
}

/// The `<style>` blocks of a component, found with [`STYLE_BLOCK_PATTERN`]
/// (see [`scoped_blocks_from_captures`]); no blocks when the pattern is
/// refused.
pub fn scoped_style_blocks(source: &str) -> (r: ScopedStyleBlocks)
    ensures
        r.style_ranges@ == whole_spans(style_block_captures(source)),
        strings_bytes(r.bodies@) == analyzed_bodies(
            source.spec_bytes(),
            style_block_captures(source),
            style_block_captures(source).len() as int,
        ),
{
    let caps = match regex_captures_iter(STYLE_BLOCK_PATTERN, source) {
        Some(c) => c,
        None => Vec::new(),
    };
    assert(style_block_captures(source) =~= group_seqs(caps@));
    scoped_blocks_from_captures(source, &caps)
}

/// What the class search of a component scans: the source with every
/// `<style>` block blanked out (the source itself should blanking break UTF-8).
pub open spec fn search_bytes(s: Seq<u8>, ranges: Seq<(usize, usize)>) -> Seq<u8> {
    if valid_utf8(blanked(s, ranges)) {
        blanked(s, ranges)
    } else {
        s
    }
}

/// `n` appears in `t` as a whole class token.
pub open spec fn token_appears(t: Seq<u8>, n: Seq<u8>) -> bool {
    n.len() > 0 && exists|p: int| #[trigger] whole_token_at(t, n, p)
}

/// A class of `classes` that appears nowhere in `t`.
pub open spec fn unused_class(classes: Seq<String>, t: Seq<u8>, x: Seq<char>) -> bool {
    exists|j: int| 0 <= j < classes.len() && (#[trigger] classes[j])@ == x && !token_appears(t, encode_utf8(x))
}

/// The strings sort strictly by their bytes (so none occurs twice).
pub open spec fn strictly_sorted(v: Seq<String>) -> bool {
    forall|i: int, j: int| 0 <= i < j < v.len() ==> bytes_less(encode_utf8((#[trigger] v[i])@), encode_utf8((#[trigger] v[j])@))
}

/// The classes of `scoped_classes` that appear nowhere in `source` outside
/// the `style_ranges` (as whole tokens: `foo` is not used by `foo-bar`),
/// each once, sorted by bytes. These are the scoped classes a component
/// defines and never uses.
pub fn unused_scoped_classes(source: &str, style_ranges: &Vec<(usize, usize)>, scoped_classes: &Vec<String>) -> (r: Vec<String>)
    requires
        forall|j: int|
            0 <= j < scoped_classes@.len() ==> token_search_in_bounds(
                search_bytes(source.spec_bytes(), style_ranges@),
                encode_utf8((#[trigger] scoped_classes@[j])@),
            ),
    ensures
        strictly_sorted(r@),
        forall|x: Seq<char>| #![trigger unused_class(scoped_classes@, search_bytes(source.spec_bytes(), style_ranges@), x)]
            (exists|i: int| 0 <= i < r@.len() && (#[trigger] r@[i])@ == x) <==> unused_class(
                scoped_classes@,
                search_bytes(source.spec_bytes(), style_ranges@),
                x,
            ),
{
    let search = blank_ranges(source, style_ranges.as_slice());
    let ghost t = search_bytes(source.spec_bytes(), style_ranges@);
    assert(encode_utf8(search@) == t);
    let mut out: Vec<String> = Vec::new();
    let mut k: usize = 0;
    while k < scoped_classes.len()
        invariant
            k <= scoped_classes@.len(),
            encode_utf8(search@) == t,
            forall|j: int|
                0 <= j < scoped_classes@.len() ==> token_search_in_bounds(t, encode_utf8((#[trigger] scoped_classes@[j])@)),
            strictly_sorted(out@),
            forall|x: Seq<char>| #![trigger unused_class(scoped_classes@.subrange(0, k as int), t, x)]
                (exists|i: int| 0 <= i < out@.len() && (#[trigger] out@[i])@ == x) <==> unused_class(
                    scoped_classes@.subrange(0, k as int),
                    t,
                    x,
                ),
        decreases scoped_classes@.len() - k,
    {
        let name = scoped_classes[k].as_str();
        let used = class_token_appears(search.as_str(), name);
        let ghost pre = scoped_classes@.subrange(0, k as int);
        let ghost post = scoped_classes@.subrange(0, k + 1);
        let ghost xk = scoped_classes@[k as int]@;
        assert(name.spec_bytes() == encode_utf8(xk));
        assert(!used ==> !token_appears(t, encode_utf8(xk)));
        proof {
            assert(post =~= pre.push(scoped_classes@[k as int]));
        }
        if used {
            proof {
                assert forall|x: Seq<char>| #![trigger unused_class(post, t, x)]
                    (exists|i: int| 0 <= i < out@.len() && (#[trigger] out@[i])@ == x) <==> unused_class(post, t, x) by {
                    if unused_class(post, t, x) {
                        let j = choose|j: int| 0 <= j < post.len() && (#[trigger] post[j])@ == x && !token_appears(t, encode_utf8(x));
                        if j == k {
                            assert(false);
                        }
                        assert(pre[j] == post[j]);
                        assert(unused_class(pre, t, x));
                    }
                    if unused_class(pre, t, x) {
                        let j = choose|j: int| 0 <= j < pre.len() && (#[trigger] pre[j])@ == x && !token_appears(t, encode_utf8(x));
                        assert(post[j] == pre[j]);
                    }
                }
            }
        } else {
            let key = name.as_bytes();
            let mut p: usize = 0;
            while p < out.len() && bytes_less_exec(out[p].as_str().as_bytes(), key)
                invariant
                    p <= out@.len(),
                    key@ == encode_utf8(xk),
                    forall|q: int| 0 <= q < p ==> bytes_less(encode_utf8((#[trigger] out@[q])@), key@),
                decreases out@.len() - p,
            {
                p = p + 1;
            }
            let dup = p < out.len() && !bytes_less_exec(key, out[p].as_str().as_bytes());
            let ghost old_out = out@;
            if dup {
                proof {
                    let op = encode_utf8(out@[p as int]@);
                    if op != key@ {
                        text::lemma_bytes_less_total(op, key@);
                    }
                    vstd::utf8::encode_utf8_decode_utf8(out@[p as int]@);
                    vstd::utf8::encode_utf8_decode_utf8(xk);
                    assert(out@[p as int]@ == xk);
                }
            } else {
                let item = scoped_classes[k].clone();
                out.insert(p, item);
                proof {
                    assert(out@ =~= old_out.insert(p as int, scoped_classes@[k as int]));
                    if p < old_out.len() {
                        let op = encode_utf8(old_out[p as int]@);
                        assert(bytes_less(key@, op));
                    }
                    assert forall|i: int, j: int| 0 <= i < j < out@.len() implies bytes_less(
                        encode_utf8((#[trigger] out@[i])@),
                        encode_utf8((#[trigger] out@[j])@),
                    ) by {
                        if j < p {
                            assert(out@[i] == old_out[i] && out@[j] == old_out[j]);
                        } else if j == p {
                            assert(out@[i] == old_out[i]);
                        } else if i > p {
                            assert(out@[i] == old_out[i - 1] && out@[j] == old_out[j - 1]);
                        } else if i == p {
                            assert(out@[j] == old_out[j - 1]);
                            if j - 1 > p {
                                text::lemma_bytes_less_transitive(
                                    key@,
                                    encode_utf8(old_out[p as int]@),
                                    encode_utf8(old_out[j - 1]@),
                                );
                            }
                        } else {
                            assert(out@[i] == old_out[i] && out@[j] == old_out[j - 1]);
                            if j - 1 > p {
                                text::lemma_bytes_less_transitive(
                                    key@,
                                    encode_utf8(old_out[p as int]@),
                                    encode_utf8(old_out[j - 1]@),
                                );
                            }
                            text::lemma_bytes_less_transitive(
                                encode_utf8(old_out[i]@),
                                key@,
                                encode_utf8(old_out[j - 1]@),
                            );
                        }
                    }
                }
            }
            proof {
                assert forall|x: Seq<char>| #![trigger unused_class(post, t, x)]
                    (exists|i: int| 0 <= i < out@.len() && (#[trigger] out@[i])@ == x) <==> unused_class(post, t, x) by {
                    if unused_class(post, t, x) {
                        let j = choose|j: int| 0 <= j < post.len() && (#[trigger] post[j])@ == x && !token_appears(t, encode_utf8(x));
                        if j == k {
                            if dup {
                                assert(out@[p as int]@ == x);
                            } else {
                                assert(out@[p as int]@ == x);
                            }
                        } else {
                            assert(pre[j] == post[j]);
                            assert(unused_class(pre, t, x));
                            let i = choose|i: int| 0 <= i < old_out.len() && (#[trigger] old_out[i])@ == x;
                            if dup {
                                assert(out@[i]@ == x);
                            } else if i < p {
                                assert(out@[i]@ == x);
                            } else {
                                assert(out@[i + 1]@ == x);
                            }
                        }
                    }
                    if exists|i: int| 0 <= i < out@.len() && (#[trigger] out@[i])@ == x {
                        let i = choose|i: int| 0 <= i < out@.len() && (#[trigger] out@[i])@ == x;
                        if !dup && i == p {
                            assert(post[k as int]@ == x);
                            assert(!token_appears(t, encode_utf8(x)));
                        } else {
                            let i0 = if !dup && i > p { i - 1 } else { i };
                            assert(old_out[i0]@ == x);
                            assert(unused_class(pre, t, x));
                            let j = choose|j: int| 0 <= j < pre.len() && (#[trigger] pre[j])@ == x && !token_appears(t, encode_utf8(x));
                            assert(post[j] == pre[j]);
                        }
                    }
                }
            }
        }
        k = k + 1;
    }
    assert(scoped_classes@.subrange(0, k as int) =~= scoped_classes@);
    out
}

} // verus!
