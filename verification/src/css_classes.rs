//! Markup CSS-class reference scanning and class-name similarity.
//!
//! [`scan_markup_class_tokens`] pulls the static class tokens out of `class` /
//! `className` attributes and flags whether the file also constructs classes
//! dynamically (`clsx(...)`, template literals, `:class`, ...). The attribute
//! matching is done by the `regex` crate; token splitting, the interpolation
//! test and line numbering are proved here.
//!
//! [`is_edit_distance_one`] and [`is_typo_edit`] compare class names byte by
//! byte.

use vstd::prelude::*;
use vstd::string::StringSliceAdditionalSpecFns;
use vstd::utf8::{encode_utf8, encode_utf8_valid_utf8, is_char_boundary, valid_utf8};

use crate::regex_scan::{regex_capture_spans, regex_captures_iter, boundary_span};
use crate::text;
use crate::text::{ascii_digit, seq_contains, has_byte, lf_count, ws_at, LOWER_S};

verus! {

// ---------------------------------------------------------------------------
// Edit distance
// ---------------------------------------------------------------------------

/// `a` and `b` have the same length and differ at exactly one index.
pub open spec fn one_substitution(a: Seq<u8>, b: Seq<u8>) -> bool {
    a.len() == b.len() && exists|i: int|
        0 <= i < a.len() && a[i] != b[i] && (forall|j: int|
            0 <= j < a.len() && j != i ==> #[trigger] a[j] == b[j])
}

/// `short` is `long` with exactly one byte removed.
pub open spec fn one_deletion(long: Seq<u8>, short: Seq<u8>) -> bool {
    long.len() == short.len() + 1 && exists|k: int| 0 <= k < long.len() && #[trigger] long.remove(k) == short
}

/// `a` and `b` differ by exactly one single-byte substitution, insertion or
/// deletion.
pub open spec fn edit_distance_one(a: Seq<u8>, b: Seq<u8>) -> bool {
    one_substitution(a, b) || one_deletion(a, b) || one_deletion(b, a)
}

/// A substitution whose two differing bytes are both non-digits.
pub open spec fn typo_substitution(a: Seq<u8>, b: Seq<u8>) -> bool {
    a.len() == b.len() && exists|i: int|
        0 <= i < a.len() && a[i] != b[i] && !ascii_digit(a[i]) && !ascii_digit(b[i]) && (forall|
            j: int,
        | 0 <= j < a.len() && j != i ==> #[trigger] a[j] == b[j])
}

/// `long` is `short` plus a trailing `s` (a singular/plural pair).
pub open spec fn plural_pair(long: Seq<u8>, short: Seq<u8>) -> bool {
    long.len() == short.len() + 1 && long.last() == LOWER_S && short == long.drop_last()
}

/// A deletion of a non-digit byte that does not form a singular/plural pair.
pub open spec fn typo_deletion(long: Seq<u8>, short: Seq<u8>) -> bool {
    &&& long.len() == short.len() + 1
    &&& !plural_pair(long, short)
    &&& exists|k: int| 0 <= k < long.len() && #[trigger] long.remove(k) == short && !ascii_digit(long[k])
}

/// `defined` is a likely typo target for `token`: one edit apart, the edited
/// byte is not a digit (numeric-scale families are intentional), and the pair
/// is not a singular/plural variant.
pub open spec fn typo_edit(token: Seq<u8>, defined: Seq<u8>) -> bool {
    typo_substitution(token, defined) || typo_deletion(token, defined) || typo_deletion(defined, token)
}

/// Equal strings are never one edit apart, and being one edit apart is
/// symmetric.
pub proof fn lemma_edit_distance_one_laws(a: Seq<u8>, b: Seq<u8>)
    ensures
        !edit_distance_one(a, a),
        edit_distance_one(a, b) == edit_distance_one(b, a),
{
    if one_substitution(a, b) {
        let i = choose|i: int|
            0 <= i < a.len() && a[i] != b[i] && (forall|j: int| 0 <= j < a.len() && j != i ==> #[trigger] a[j] == b[j]);
        assert(0 <= i < b.len() && b[i] != a[i] && (forall|j: int| 0 <= j < b.len() && j != i ==> #[trigger] b[j] == a[j]));
    }
    if one_substitution(b, a) {
        let i = choose|i: int|
            0 <= i < b.len() && b[i] != a[i] && (forall|j: int| 0 <= j < b.len() && j != i ==> #[trigger] b[j] == a[j]);
        assert(0 <= i < a.len() && a[i] != b[i] && (forall|j: int| 0 <= j < a.len() && j != i ==> #[trigger] a[j] == b[j]));
    }
}

/// A likely typo is one edit apart, being a likely typo is symmetric, and a
/// singular/plural pair is never a likely typo.
pub proof fn lemma_typo_edit_laws(token: Seq<u8>, defined: Seq<u8>)
    ensures
        typo_edit(token, defined) ==> edit_distance_one(token, defined),
        typo_edit(token, defined) == typo_edit(defined, token),
        plural_pair(token, defined) ==> !typo_edit(token, defined),
        plural_pair(defined, token) ==> !typo_edit(token, defined),
{
    if typo_substitution(defined, token) {
        let i = choose|i: int|
            0 <= i < defined.len() && defined[i] != token[i] && !ascii_digit(defined[i]) && !ascii_digit(token[i]) && (
            forall|j: int| 0 <= j < defined.len() && j != i ==> #[trigger] defined[j] == token[j]);
        assert(0 <= i < token.len() && token[i] != defined[i] && !ascii_digit(token[i]) && !ascii_digit(defined[i])
            && (forall|j: int| 0 <= j < token.len() && j != i ==> #[trigger] token[j] == defined[j]));
    }
    if typo_substitution(token, defined) {
        let i = choose|i: int|
            0 <= i < token.len() && token[i] != defined[i] && !ascii_digit(token[i]) && !ascii_digit(defined[i]) && (
            forall|j: int| 0 <= j < token.len() && j != i ==> #[trigger] token[j] == defined[j]);
        assert(one_substitution(token, defined));
    }
}

/// Index of the first position where `short` and `long` disagree (or
/// `short.len()` when `short` is a prefix of `long`).
pub open spec fn first_mismatch(long: Seq<u8>, short: Seq<u8>, i: int) -> int
    decreases short.len() - i,
{
    if i >= short.len() || i < 0 || i >= long.len() || short[i] != long[i] {
        i
    } else {
        first_mismatch(long, short, i + 1)
    }
}

pub proof fn lemma_first_mismatch(long: Seq<u8>, short: Seq<u8>, i: int)
    requires
        0 <= i <= short.len(),
        long.len() == short.len() + 1,
    ensures
        i <= first_mismatch(long, short, i) <= short.len(),
        forall|x: int| i <= x < first_mismatch(long, short, i) ==> short[x] == long[x],
        first_mismatch(long, short, i) < short.len() ==> short[first_mismatch(long, short, i)]
            != long[first_mismatch(long, short, i)],
    decreases short.len() - i,
{
    if !(i >= short.len() || short[i] != long[i]) {
        lemma_first_mismatch(long, short, i + 1);
    }
}

/// Removing any byte of a run of equal bytes gives the same sequence, so a
/// deletion can always be placed at the first mismatch `p`.
pub proof fn lemma_deletion_at_first_mismatch(long: Seq<u8>, short: Seq<u8>, k: int)
    requires
        long.len() == short.len() + 1,
        0 <= k < long.len(),
        long.remove(k) == short,
    ensures
        ({
            let p = first_mismatch(long, short, 0);
            &&& k <= p
            &&& long.remove(p) == short
            &&& long[k] == long[p]
        }),
{
    let p = first_mismatch(long, short, 0);
    lemma_first_mismatch(long, short, 0);
    assert(k <= p) by {
        if k > p {
            assert(short[p] == long.remove(k)[p]);
        }
    }
    assert forall|x: int| k <= x < p implies #[trigger] long[x] == long[x + 1] by {
        assert(short[x] == long.remove(k)[x]);
    }
    assert forall|x: int| k <= x <= p implies #[trigger] long[x] == long[p] by {
        lemma_run_equal(long, x, p);
    }
    assert(long.remove(p) =~= short) by {
        assert forall|x: int| 0 <= x < short.len() implies long.remove(p)[x] == short[x] by {
            if x < k {
                assert(short[x] == long.remove(k)[x]);
            } else if x < p {
                assert(short[x] == long.remove(k)[x]);
            } else {
                assert(short[x] == long.remove(k)[x]);
            }
        }
    }
}

/// Two distinct differing indexes rule out a single substitution.
proof fn lemma_two_diffs(a: Seq<u8>, b: Seq<u8>, d1: int, d2: int)
    requires
        a.len() == b.len(),
        0 <= d1 < a.len(),
        0 <= d2 < a.len(),
        d1 != d2,
        a[d1] != b[d1],
        a[d2] != b[d2],
    ensures
        !one_substitution(a, b),
        !typo_substitution(a, b),
{
    if one_substitution(a, b) {
        let i = choose|i: int|
            0 <= i < a.len() && a[i] != b[i] && (forall|j: int|
                0 <= j < a.len() && j != i ==> #[trigger] a[j] == b[j]);
        if i == d1 {
            assert(a[d2] == b[d2]);
        } else {
            assert(a[d1] == b[d1]);
        }
    }
    if typo_substitution(a, b) {
        let i = choose|i: int|
            0 <= i < a.len() && a[i] != b[i] && !ascii_digit(a[i]) && !ascii_digit(b[i]) && (forall|
                j: int,
            | 0 <= j < a.len() && j != i ==> #[trigger] a[j] == b[j]);
        if i == d1 {
            assert(a[d2] == b[d2]);
        } else {
            assert(a[d1] == b[d1]);
        }
    }
}

proof fn lemma_run_equal(s: Seq<u8>, x: int, p: int)
    requires
        0 <= x <= p < s.len(),
        forall|y: int| x <= y < p ==> #[trigger] s[y] == s[y + 1],
    ensures
        s[x] == s[p],
    decreases p - x,
{
    if x < p {
        lemma_run_equal(s, x + 1, p);
    }
}

/// The deletion check shared by both predicates: walk `short` against `long`
/// allowing one skip. Returns whether the walk succeeds and the skipped byte
/// of `long` (its last byte when the skip falls at the end).
fn deletion_walk(long: &[u8], short: &[u8]) -> (r: (bool, u8))
    requires
        long@.len() == short@.len() + 1,
    ensures
        r.0 == (long@.remove(first_mismatch(long@, short@, 0)) == short@),
        r.0 ==> r.1 == long@[first_mismatch(long@, short@, 0)],
{
    let ghost p = first_mismatch(long@, short@, 0);
    proof {
        lemma_first_mismatch(long@, short@, 0);
    }
    let mut i: usize = 0;
    let mut j: usize = 0;
    let mut skipped = false;
    let mut edit_byte = long[long.len() - 1];
    while i < short.len() && j < long.len()
        invariant
            long@.len() == short@.len() + 1,
            p == first_mismatch(long@, short@, 0),
            0 <= p <= short@.len(),
            forall|x: int| 0 <= x < p ==> short@[x] == long@[x],
            p < short@.len() ==> short@[p] != long@[p],
            i <= short@.len(),
            !skipped ==> j == i && i <= p,
            skipped ==> j == i + 1 && p < j && edit_byte == long@[p],
            skipped ==> forall|x: int| p <= x < i ==> short@[x] == long@[x + 1],
            !skipped ==> edit_byte == long@[long@.len() - 1],
        decreases long@.len() - j,
    {
        if short[i] == long[j] {
            i = i + 1;
        } else {
            if skipped {
                proof {
                    assert(p <= i);
                    assert(long@.remove(p)[i as int] == long@[i + 1]);
                    assert(long@.remove(p)[i as int] != short@[i as int]);
                }
                return (false, edit_byte);
            }
            skipped = true;
            edit_byte = long[j];
        }
        j = j + 1;
    }
    proof {
        if !skipped {
            assert(i == short@.len());
            assert(p == short@.len());
        }
        assert(long@.remove(p) =~= short@);
    }
    (true, edit_byte)
}

/// True when `a` and `b` differ by exactly one single-byte edit (one
/// substitution, insertion, or deletion). Equal strings return false.
pub fn is_edit_distance_one(a: &str, b: &str) -> (r: bool)
    ensures
        r == edit_distance_one(a.spec_bytes(), b.spec_bytes()),
{
    let ab = a.as_bytes();
    let bb = b.as_bytes();
    let la = ab.len();
    let lb = bb.len();
    if la == lb {
        let mut diffs: usize = 0;
        let mut i: usize = 0;
        let ghost mut d: int = 0;
        while i < la
            invariant
                la == ab@.len() == bb@.len(),
                ab@ == a.spec_bytes(),
                bb@ == b.spec_bytes(),
                i <= la,
                diffs <= 1,
                diffs == 0 ==> forall|x: int| 0 <= x < i ==> ab@[x] == bb@[x],
                diffs == 1 ==> 0 <= d < i && ab@[d] != bb@[d] && forall|x: int|
                    0 <= x < i && x != d ==> ab@[x] == bb@[x],
            decreases la - i,
        {
            if ab[i] != bb[i] {
                if diffs == 1 {
                    proof {
                        lemma_two_diffs(ab@, bb@, d, i as int);
                    }
                    return false;
                }
                diffs = 1;
                proof {
                    d = i as int;
                }
            }
            i = i + 1;
        }
        return diffs == 1;
    }
    let (short, long) = if la < lb {
        (ab, bb)
    } else {
        (bb, ab)
    };
    if long.len() - short.len() != 1 {
        return false;
    }
    let (ok, _) = deletion_walk(long, short);
    proof {
        let p = first_mismatch(long@, short@, 0);
        lemma_first_mismatch(long@, short@, 0);
        if ok {
            assert(long@.remove(p) == short@);
        }
        if !ok {
            if exists|k: int| 0 <= k < long@.len() && #[trigger] long@.remove(k) == short@ {
                let k = choose|k: int| 0 <= k < long@.len() && #[trigger] long@.remove(k) == short@;
                lemma_deletion_at_first_mismatch(long@, short@, k);
            }
        }
    }
    ok
}

/// True when `defined` is a likely typo target for `token`: exactly one edit
/// apart and that edit is a believable mistake: not a digit edit
/// (numeric-scale families such as `col-lg-6` / `col-lg-4`) and not a
/// singular/plural pair (`button` / `buttons`).
pub fn is_typo_edit(token: &str, defined: &str) -> (r: bool)
    ensures
        r == typo_edit(token.spec_bytes(), defined.spec_bytes()),
{
    let tb = token.as_bytes();
    let db = defined.as_bytes();
    let lt = tb.len();
    let ld = db.len();
    if lt == ld {
        let mut diff: Option<usize> = None;
        let mut i: usize = 0;
        while i < lt
            invariant
                lt == tb@.len() == db@.len(),
                tb@ == token.spec_bytes(),
                db@ == defined.spec_bytes(),
                i <= lt,
                diff is None ==> forall|x: int| 0 <= x < i ==> tb@[x] == db@[x],
                diff matches Some(d) ==> d < i && tb@[d as int] != db@[d as int] && forall|x: int|
                    0 <= x < i && x != d ==> tb@[x] == db@[x],
            decreases lt - i,
        {
            if tb[i] != db[i] {
                if diff.is_some() {
                    proof {
                        lemma_two_diffs(tb@, db@, diff.unwrap() as int, i as int);
                    }
                    return false;
                }
                diff = Some(i);
            }
            i = i + 1;
        }
        return match diff {
            Some(i) => !text::is_ascii_digit(tb[i]) && !text::is_ascii_digit(db[i]),
            None => false,
        };
    }
    let (short, long) = if lt < ld {
        (tb, db)
    } else {
        (db, tb)
    };
    if long.len() - short.len() != 1 {
        return false;
    }
    let last = long.len() - 1;
    if long[last] == LOWER_S && text::range_eq(long, 0, last, short) {
        assert(long@.subrange(0, last as int) =~= long@.drop_last());
        return false;
    }
    proof {
        if plural_pair(long@, short@) {
            assert(long@.subrange(0, last as int) =~= long@.drop_last());
        }
    }
    let (ok, edit_byte) = deletion_walk(long, short);
    proof {
        let p = first_mismatch(long@, short@, 0);
        lemma_first_mismatch(long@, short@, 0);
        if exists|k: int| 0 <= k < long@.len() && #[trigger] long@.remove(k) == short@ && !ascii_digit(long@[k]) {
            let k = choose|k: int| 0 <= k < long@.len() && #[trigger] long@.remove(k) == short@ && !ascii_digit(long@[k]);
            lemma_deletion_at_first_mismatch(long@, short@, k);
        }
        if ok && !ascii_digit(edit_byte) {
            assert(long@.remove(p) == short@ && !ascii_digit(long@[p]));
        }
    }
    ok && !text::is_ascii_digit(edit_byte)
}

// ---------------------------------------------------------------------------
// Markup class scanning
// ---------------------------------------------------------------------------

/// A static class token referenced in markup, with the 1-based line it sits on.
#[derive(Debug, Clone, PartialEq, Eq)]
pub struct MarkupClassToken {
    /// The bare class name (no dot), e.g. `card-title`.
    pub value: String,
    /// 1-based line of the attribute in the source.
    pub line: u32,
}

/// The result of scanning one markup source for class references.
#[derive(Debug, Clone, Default, PartialEq, Eq)]
pub struct MarkupClassScan {
    /// Class tokens from fully-static `class` / `className` attribute values.
    pub static_tokens: Vec<MarkupClassToken>,
    /// True when the file constructs classes dynamically anywhere.
    pub has_dynamic: bool,
}

/// A fully-static `class="..."` / `className='...'` attribute; group 1 or 2
/// holds the raw value.
pub const STATIC_CLASS_ATTR_PATTERN: &'static str = "(?:\\bclass|\\bclassName)\\s*=\\s*(?:\"([^\"]*)\"|'([^']*)')";

/// The source holds one of the substrings that prove classes are built
/// dynamically (`clsx(`, `className={`, `:class`, `classList`, ...).
pub open spec fn has_dynamic_marker(s: Seq<u8>) -> bool {
    seq_contains(s, "className={".spec_bytes())
        || seq_contains(s, "className ={".spec_bytes())
        || seq_contains(s, "class={".spec_bytes())
        || seq_contains(s, "class ={".spec_bytes())
        || seq_contains(s, ":class".spec_bytes())
        || seq_contains(s, "v-bind:class".spec_bytes())
        || seq_contains(s, "[class]".spec_bytes())
        || seq_contains(s, "[ngClass]".spec_bytes())
        || seq_contains(s, "class:".spec_bytes())
        || seq_contains(s, "clsx(".spec_bytes())
        || seq_contains(s, "classnames(".spec_bytes())
        || seq_contains(s, "classNames(".spec_bytes())
        || seq_contains(s, "cx(".spec_bytes())
        || seq_contains(s, "cva(".spec_bytes())
        || seq_contains(s, "twMerge(".spec_bytes())
        || seq_contains(s, "tw`".spec_bytes())
        || seq_contains(s, "classList".spec_bytes())
}

/// A class value carrying an interpolation (`{`, `}`, `$`, backtick).
pub open spec fn interpolated(s: Seq<u8>, lo: int, hi: int) -> bool {
    has_byte(s, lo, hi, 0x7b) || has_byte(s, lo, hi, 0x7d) || has_byte(s, lo, hi, 0x24) || has_byte(
        s,
        lo,
        hi,
        0x60,
    )
}

/// A token usable as a class name: non-empty, no markup / interpolation
/// punctuation.
pub open spec fn plausible(s: Seq<u8>, lo: int, hi: int) -> bool {
    lo < hi
        && !has_byte(s, lo, hi, 0x7b)
        && !has_byte(s, lo, hi, 0x7d)
        && !has_byte(s, lo, hi, 0x24)
        && !has_byte(s, lo, hi, 0x60)
        && !has_byte(s, lo, hi, 0x22)
        && !has_byte(s, lo, hi, 0x27)
        && !has_byte(s, lo, hi, 0x28)
        && !has_byte(s, lo, hi, 0x29)
        && !has_byte(s, lo, hi, 0x3c)
        && !has_byte(s, lo, hi, 0x3e)
        && !has_byte(s, lo, hi, 0x3d)
}

/// 1-based line of byte offset `pos`, saturated to `u32::MAX`.
pub open spec fn line_at(s: Seq<u8>, pos: int) -> u32 {
    if lf_count(s, 0, pos) + 1 > u32::MAX {
        u32::MAX
    } else {
        (lf_count(s, 0, pos) + 1) as u32
    }
}

/// The plausible whitespace-separated words of `s[i..hi)` (`split_whitespace`
/// then the plausibility filter), each tagged with `line`.
pub open spec fn class_words(s: Seq<u8>, i: int, hi: int, line: u32) -> Seq<(int, int, u32)>
    decreases if i < hi { hi - i } else { 0 },
{
    if i >= hi || i < 0 {
        seq![]
    } else if ws_at(s, i, hi) > 0 {
        class_words(s, i + ws_at(s, i, hi), hi, line)
    } else {
        let e = text::word_end(s, i, hi);
        proof {
            text::lemma_word_end(s, i, hi);
        }
        if plausible(s, i, e) {
            seq![(i, e, line)] + class_words(s, e, hi, line)
        } else {
            class_words(s, e, hi, line)
        }
    }
}

/// The value span of one capture: group 1, else group 2.
pub open spec fn value_span(c: Seq<Option<(usize, usize)>>) -> Option<(usize, usize)> {
    if c.len() > 1 && c[1] is Some {
        c[1]
    } else if c.len() > 2 && c[2] is Some {
        c[2]
    } else {
        None
    }
}

/// The tokens one attribute match contributes.
pub open spec fn capture_tokens(s: Seq<u8>, c: Seq<Option<(usize, usize)>>) -> Seq<(int, int, u32)> {
    match value_span(c) {
        Some(v) => if interpolated(s, v.0 as int, v.1 as int) {
            seq![]
        } else {
            class_words(s, v.0 as int, v.1 as int, line_at(s, c[0].unwrap().0 as int))
        },
        None => seq![],
    }
}

/// The tokens of the first `k` attribute matches, in order.
pub open spec fn all_class_tokens(s: Seq<u8>, cs: Seq<Seq<Option<(usize, usize)>>>, k: int) -> Seq<(int, int, u32)>
    decreases k,
{
    if k <= 0 {
        seq![]
    } else {
        all_class_tokens(s, cs, k - 1) + capture_tokens(s, cs[k - 1])
    }
}

/// Some attribute match among the first `k` carries an interpolated value.
pub open spec fn any_interpolated(s: Seq<u8>, cs: Seq<Seq<Option<(usize, usize)>>>, k: int) -> bool {
    exists|j: int| 0 <= j < k && #[trigger] capture_interpolated(s, cs[j])
}

/// The value of the attribute match `c` carries an interpolation.
pub open spec fn capture_interpolated(s: Seq<u8>, c: Seq<Option<(usize, usize)>>) -> bool {
    match value_span(c) {
        Some(v) => interpolated(s, v.0 as int, v.1 as int),
        None => false,
    }
}

pub open spec fn captures_or_empty(o: Option<Seq<Seq<Option<(usize, usize)>>>>) -> Seq<Seq<Option<(usize, usize)>>> {
    match o {
        Some(v) => v,
        None => seq![],
    }
}

/// The attribute matches of `source`.
pub open spec fn class_attr_captures(source: &str) -> Seq<Seq<Option<(usize, usize)>>> {
    captures_or_empty(regex_capture_spans(STATIC_CLASS_ATTR_PATTERN@, source@))
}

fn has_dynamic_marker_in(s: &[u8]) -> (r: bool)
    ensures
        r == has_dynamic_marker(s@),
{
    text::contains(s, "className={".as_bytes())
        || text::contains(s, "className ={".as_bytes())
        || text::contains(s, "class={".as_bytes())
        || text::contains(s, "class ={".as_bytes())
        || text::contains(s, ":class".as_bytes())
        || text::contains(s, "v-bind:class".as_bytes())
        || text::contains(s, "[class]".as_bytes())
        || text::contains(s, "[ngClass]".as_bytes())
        || text::contains(s, "class:".as_bytes())
        || text::contains(s, "clsx(".as_bytes())
        || text::contains(s, "classnames(".as_bytes())
        || text::contains(s, "classNames(".as_bytes())
        || text::contains(s, "cx(".as_bytes())
        || text::contains(s, "cva(".as_bytes())
        || text::contains(s, "twMerge(".as_bytes())
        || text::contains(s, "tw`".as_bytes())
        || text::contains(s, "classList".as_bytes())
}

fn value_is_interpolated(s: &[u8], lo: usize, hi: usize) -> (r: bool)
    requires
        lo <= hi <= s@.len(),
    ensures
        r == interpolated(s@, lo as int, hi as int),
{
    text::find_byte(s, lo, hi, 0x7b) || text::find_byte(s, lo, hi, 0x7d) || text::find_byte(
        s,
        lo,
        hi,
        0x24,
    ) || text::find_byte(s, lo, hi, 0x60)
}

fn is_plausible_class_token(s: &[u8], lo: usize, hi: usize) -> (r: bool)
    requires
        lo <= hi <= s@.len(),
    ensures
        r == plausible(s@, lo as int, hi as int),
{
    lo < hi
        && !text::find_byte(s, lo, hi, 0x7b)
        && !text::find_byte(s, lo, hi, 0x7d)
        && !text::find_byte(s, lo, hi, 0x24)
        && !text::find_byte(s, lo, hi, 0x60)
        && !text::find_byte(s, lo, hi, 0x22)
        && !text::find_byte(s, lo, hi, 0x27)
        && !text::find_byte(s, lo, hi, 0x28)
        && !text::find_byte(s, lo, hi, 0x29)
        && !text::find_byte(s, lo, hi, 0x3c)
        && !text::find_byte(s, lo, hi, 0x3e)
        && !text::find_byte(s, lo, hi, 0x3d)
}

/// 1-based line of byte offset `pos`, saturated to `u32::MAX`.
pub fn line_of(s: &[u8], pos: usize) -> (r: u32)
    requires
        pos <= s@.len(),
    ensures
        r == line_at(s@, pos as int),
{
    let n = text::count_lf(s, 0, pos);
    if n >= 0xffff_ffff {
        0xffff_ffff
    } else {
        (n + 1) as u32
    }
}

/// `toks[base..]` are the tokens described by the byte spans `spec`.
pub open spec fn tokens_match_from(toks: Seq<MarkupClassToken>, base: int, s: Seq<u8>, spec: Seq<(int, int, u32)>) -> bool {
    &&& toks.len() == base + spec.len()
    &&& forall|k: int|
        0 <= k < spec.len() ==> encode_utf8((#[trigger] toks[base + k]).value@) == s.subrange(
            spec[k].0,
            spec[k].1,
        ) && toks[base + k].line == spec[k].2
}

/// Push the plausible words of the value `source[lo..hi)` tagged `line`.
fn push_class_words(source: &str, s: &[u8], lo: usize, hi: usize, line: u32, out: &mut Vec<MarkupClassToken>)
    requires
        s@ == source.spec_bytes(),
        lo <= hi <= s@.len(),
        is_char_boundary(s@, lo as int),
        is_char_boundary(s@, hi as int),
    ensures
        final(out)@.subrange(0, old(out)@.len() as int) == old(out)@,
        tokens_match_from(final(out)@, old(out)@.len() as int, s@, class_words(s@, lo as int, hi as int, line)),
{
    proof {
        encode_utf8_valid_utf8(source@);
    }
    let ghost base = out@.len() as int;
    let ghost old_out = out@;
    let ghost mut pushed: Seq<(int, int, u32)> = seq![];
    let mut i = lo;
    while i < hi
        invariant
            lo <= i <= hi <= s@.len(),
            s@ == source.spec_bytes(),
            valid_utf8(s@),
            is_char_boundary(s@, i as int),
            is_char_boundary(s@, hi as int),
            out@.subrange(0, base) == old_out,
            base == old_out.len(),
            tokens_match_from(out@, base, s@, pushed),
            class_words(s@, lo as int, hi as int, line) == pushed + class_words(s@, i as int, hi as int, line),
        decreases hi - i,
    {
        let w = text::ws_len_at(s, i, hi);
        if w > 0 {
            proof {
                text::lemma_ws_boundaries(s@, i as int, hi as int);
            }
            i = i + w;
        } else {
            let e = text::find_word_end(s, i, hi);
            proof {
                text::lemma_word_end(s@, i as int, hi as int);
                if e < hi {
                    text::lemma_ws_boundaries(s@, e as int, hi as int);
                }
            }
            if is_plausible_class_token(s, i, e) {
                let t = text::substring(source, i, e);
                let value = t.to_owned();
                let ghost prev = out@;
                out.push(MarkupClassToken { value, line });
                proof {
                    assert(out@.subrange(0, base) =~= prev.subrange(0, base));
                    let np = pushed.push((i as int, e as int, line));
                    assert forall|k: int| 0 <= k < np.len() implies encode_utf8((#[trigger] out@[base + k]).value@)
                        == s@.subrange(np[k].0, np[k].1) && out@[base + k].line == np[k].2 by {
                        if k < pushed.len() {
                            assert(out@[base + k] == prev[base + k]);
                        }
                    }
                    assert(seq![(i as int, e as int, line)] + class_words(s@, e as int, hi as int, line)
                        =~= seq![(i as int, e as int, line)].add(class_words(s@, e as int, hi as int, line)));
                    assert(pushed + (seq![(i as int, e as int, line)] + class_words(s@, e as int, hi as int, line))
                        =~= np + class_words(s@, e as int, hi as int, line));
                    pushed = np;
                }
            }
            i = e;
        }
    }
    assert(pushed + class_words(s@, i as int, hi as int, line) =~= pushed);
}

/// Scan a markup source for static class tokens and a dynamic-construction
/// flag: `class="a b c"` yields three tokens; `className={clsx(...)}` and
/// `class="a-{x}"` yield no tokens but set `has_dynamic`.
pub fn scan_markup_class_tokens(source: &str) -> (r: MarkupClassScan)
    ensures
        r.has_dynamic == (has_dynamic_marker(source.spec_bytes()) || any_interpolated(
            source.spec_bytes(),
            class_attr_captures(source),
            class_attr_captures(source).len() as int,
        )),
        tokens_match_from(
            r.static_tokens@,
            0,
            source.spec_bytes(),
            all_class_tokens(source.spec_bytes(), class_attr_captures(source), class_attr_captures(source).len() as int),
        ),
{
    let caps = match regex_captures_iter(STATIC_CLASS_ATTR_PATTERN, source) {
        Some(c) => c,
        None => Vec::new(),
    };
    assert(class_attr_captures(source) =~= crate::regex_scan::group_seqs(caps@));
    class_tokens_from_captures(source, &caps)
}

/// The class tokens and dynamic flag of `source` given the captures `caps`
/// of [`STATIC_CLASS_ATTR_PATTERN`] (per match, group 0 present, every
/// present group on character boundaries): the words of each static value,
/// tagged with the match's 1-based line; `has_dynamic` when a dynamic marker
/// occurs or some value interpolates.
pub fn class_tokens_from_captures(source: &str, caps: &Vec<Vec<Option<(usize, usize)>>>) -> (r: MarkupClassScan)
    requires
        forall|x: int| 0 <= x < caps@.len() ==> (#[trigger] caps@[x])@.len() >= 1 && caps@[x]@[0] is Some,
        forall|x: int, g: int|
            0 <= x < caps@.len() && 0 <= g < caps@[x]@.len() && (#[trigger] caps@[x]@[g]) is Some
                ==> boundary_span(source.spec_bytes(), caps@[x]@[g].unwrap()),
    ensures
        r.has_dynamic == (has_dynamic_marker(source.spec_bytes()) || any_interpolated(
            source.spec_bytes(),
            crate::regex_scan::group_seqs(caps@),
            caps@.len() as int,
        )),
        tokens_match_from(
            r.static_tokens@,
            0,
            source.spec_bytes(),
            all_class_tokens(source.spec_bytes(), crate::regex_scan::group_seqs(caps@), caps@.len() as int),
        ),
{
    let s = source.as_bytes();
    let has_dynamic = has_dynamic_marker_in(s);
    let ghost cs = crate::regex_scan::group_seqs(caps@);
    let mut static_tokens: Vec<MarkupClassToken> = Vec::new();
    let mut any_interp = false;
    let mut k: usize = 0;
    while k < caps.len()
        invariant
            s@ == source.spec_bytes(),
            cs == crate::regex_scan::group_seqs(caps@),
            k <= caps@.len(),
            forall|x: int| 0 <= x < caps@.len() ==> (#[trigger] caps@[x])@.len() >= 1 && caps@[x]@[0] is Some,
            forall|x: int, g: int|
                0 <= x < caps@.len() && 0 <= g < caps@[x]@.len() && (#[trigger] caps@[x]@[g]) is Some
                    ==> boundary_span(s@, caps@[x]@[g].unwrap()),
            any_interp == any_interpolated(s@, cs, k as int),
            tokens_match_from(static_tokens@, 0, s@, all_class_tokens(s@, cs, k as int)),
        decreases caps@.len() - k,
    {
        let c = &caps[k];
        assert(cs[k as int] == c@);
        let span = if c.len() > 1 && c[1].is_some() {
            c[1]
        } else if c.len() > 2 && c[2].is_some() {
            c[2]
        } else {
            None
        };
        assert(span == value_span(c@));
        match span {
            Some((vs, ve)) => {
                proof {
                    assert(boundary_span(s@, (vs, ve)));
                }
                if value_is_interpolated(s, vs, ve) {
                    any_interp = true;
                    proof {
                        assert(capture_interpolated(s@, cs[k as int]));
                        assert(all_class_tokens(s@, cs, k + 1) =~= all_class_tokens(s@, cs, k as int));
                    }
                } else {
                    let whole = c[0].unwrap();
                    proof {
                        assert(boundary_span(s@, whole));
                    }
                    let line = line_of(s, whole.0);
                    let ghost prev = static_tokens@;
                    push_class_words(source, s, vs, ve, line, &mut static_tokens);
                    proof {
                        let a = all_class_tokens(s@, cs, k as int);
                        let b = capture_tokens(s@, cs[k as int]);
                        assert(b == class_words(s@, vs as int, ve as int, line));
                        assert(all_class_tokens(s@, cs, k + 1) == a + b);
                        assert forall|x: int| 0 <= x < (a + b).len() implies encode_utf8(
                            (#[trigger] static_tokens@[0 + x]).value@,
                        ) == s@.subrange((a + b)[x].0, (a + b)[x].1) && static_tokens@[0 + x].line == (a
                            + b)[x].2 by {
                            if x < a.len() {
                                assert(static_tokens@[x] == static_tokens@.subrange(0, prev.len() as int)[x]);
                                assert(prev[0 + x] == static_tokens@[x]);
                            } else {
                                assert(static_tokens@[prev.len() + (x - a.len())] == static_tokens@[0 + x]);
                            }
                        }
                        assert(!capture_interpolated(s@, cs[k as int]));
                        assert(any_interpolated(s@, cs, k + 1) == any_interpolated(s@, cs, k as int)) by {
                            if any_interpolated(s@, cs, k + 1) {
                                let j = choose|j: int| 0 <= j < k + 1 && #[trigger] capture_interpolated(s@, cs[j]);
                                assert(j < k);
                            }
                        }
                    }
                }
            },
            None => {
                proof {
                    assert(all_class_tokens(s@, cs, k + 1) =~= all_class_tokens(s@, cs, k as int));
                    assert(any_interpolated(s@, cs, k + 1) == any_interpolated(s@, cs, k as int)) by {
                        if any_interpolated(s@, cs, k + 1) {
                            let j = choose|j: int| 0 <= j < k + 1 && #[trigger] capture_interpolated(s@, cs[j]);
                            assert(j < k);
                        }
                    }
                }
            },
        }
        k = k + 1;
    }
    MarkupClassScan { static_tokens, has_dynamic: has_dynamic || any_interp }
}

} // verus!
