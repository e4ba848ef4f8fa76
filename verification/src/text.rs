//! Byte-level text primitives shared by the scanners.
//!
//! Every scanner in this crate walks the UTF-8 bytes of its input. The spec
//! functions here describe those bytes directly: which byte is ASCII
//! whitespace, how wide the UTF-8 sequence led by a byte is, which byte run
//! encodes a Unicode `White_Space` character, and how many line feeds a range
//! holds.

use vstd::prelude::*;
use vstd::string::StringSliceAdditionalSpecFns;
use vstd::utf8::{
    is_char_boundary, is_char_boundary_iff_not_is_continuation_byte,
    is_char_boundary_start_end_of_seq, is_continuation_byte, length_of_first_scalar, valid_utf8,
    valid_utf8_split, encode_utf8_valid_utf8, encode_utf8,
};

verus! {

pub const TAB: u8 = 0x09;
pub const LF: u8 = 0x0a;
pub const VT: u8 = 0x0b;
pub const FF: u8 = 0x0c;
pub const CR: u8 = 0x0d;
pub const SPACE: u8 = 0x20;
pub const DQUOTE: u8 = 0x22;
pub const DOLLAR: u8 = 0x24;
pub const SQUOTE: u8 = 0x27;
pub const LPAREN: u8 = 0x28;
pub const RPAREN: u8 = 0x29;
pub const COMMA: u8 = 0x2c;
pub const DASH: u8 = 0x2d;
pub const DOT: u8 = 0x2e;
pub const SLASH: u8 = 0x2f;
pub const COLON: u8 = 0x3a;
pub const SEMI: u8 = 0x3b;
pub const LT: u8 = 0x3c;
pub const EQ: u8 = 0x3d;
pub const GT: u8 = 0x3e;
pub const QUESTION: u8 = 0x3f;
pub const AT: u8 = 0x40;
pub const LBRACKET: u8 = 0x5b;
pub const BACKSLASH: u8 = 0x5c;
pub const RBRACKET: u8 = 0x5d;
pub const UNDERSCORE: u8 = 0x5f;
pub const BACKTICK: u8 = 0x60;
pub const LBRACE: u8 = 0x7b;
pub const PIPE: u8 = 0x7c;
pub const RBRACE: u8 = 0x7d;
pub const AMP: u8 = 0x26;
pub const BANG: u8 = 0x21;
pub const QMARK_BYTE: u8 = 0x3f;
pub const DIGIT_0: u8 = 0x30;
pub const DIGIT_9: u8 = 0x39;
pub const UPPER_A: u8 = 0x41;
pub const UPPER_Z: u8 = 0x5a;
pub const LOWER_A: u8 = 0x61;
pub const LOWER_Z: u8 = 0x7a;
pub const LOWER_S: u8 = 0x73;

/// `u8::is_ascii_whitespace`: space, tab, line feed, form feed, carriage return.
pub open spec fn ascii_ws(b: u8) -> bool {
    b == SPACE || b == TAB || b == LF || b == FF || b == CR
}

pub open spec fn ascii_digit(b: u8) -> bool {
    DIGIT_0 <= b <= DIGIT_9
}

pub open spec fn ascii_alpha(b: u8) -> bool {
    (UPPER_A <= b <= UPPER_Z) || (LOWER_A <= b <= LOWER_Z)
}

pub open spec fn ascii_alnum(b: u8) -> bool {
    ascii_alpha(b) || ascii_digit(b)
}

/// ASCII lowercase of one byte (`u8::to_ascii_lowercase`).
pub open spec fn lower_byte(b: u8) -> u8 {
    if UPPER_A <= b <= UPPER_Z {
        (b + 32) as u8
    } else {
        b
    }
}

/// Width in bytes of the UTF-8 sequence whose first byte is `b` (1 for an
/// ASCII byte or a byte that cannot lead a sequence).
pub open spec fn width_of(b: u8) -> int {
    if b < 0x80 {
        1
    } else if b >= 0xf0 {
        4
    } else if b >= 0xe0 {
        3
    } else if b >= 0xc0 {
        2
    } else {
        1
    }
}

pub broadcast proof fn lemma_width_of_range(b: u8)
    ensures
        1 <= #[trigger] width_of(b) <= 4,
{
}

/// Byte length of the Unicode `White_Space` character whose encoding starts at
/// `i` and lies wholly inside `[i, hi)`, or 0 when none starts there.
pub open spec fn ws_at(s: Seq<u8>, i: int, hi: int) -> int {
    if !(0 <= i < hi && hi <= s.len()) {
        0
    } else if ascii_ws(s[i]) || s[i] == VT {
        1
    } else if i + 1 < hi && s[i] == 0xc2 && (s[i + 1] == 0x85 || s[i + 1] == 0xa0) {
        2
    } else if i + 2 < hi && s[i] == 0xe1 && s[i + 1] == 0x9a && s[i + 2] == 0x80 {
        3
    } else if i + 2 < hi && s[i] == 0xe2 && s[i + 1] == 0x80 && ((0x80 <= s[i + 2]
        <= 0x8a) || s[i + 2] == 0xa8 || s[i + 2] == 0xa9 || s[i + 2] == 0xaf) {
        3
    } else if i + 2 < hi && s[i] == 0xe2 && s[i + 1] == 0x81 && s[i + 2] == 0x9f {
        3
    } else if i + 2 < hi && s[i] == 0xe3 && s[i + 1] == 0x80 && s[i + 2] == 0x80 {
        3
    } else {
        0
    }
}

/// Byte length of the Unicode `White_Space` character whose encoding ends at
/// `j` and lies wholly inside `[lo, j)`, or 0 when none ends there.
pub open spec fn ws_before(s: Seq<u8>, lo: int, j: int) -> int {
    if !(0 <= lo < j && j <= s.len()) {
        0
    } else if ws_at(s, j - 1, j) == 1 {
        1
    } else if lo <= j - 2 && ws_at(s, j - 2, j) == 2 {
        2
    } else if lo <= j - 3 && ws_at(s, j - 3, j) == 3 {
        3
    } else {
        0
    }
}

/// First offset in `[lo, hi)` not covered by leading Unicode whitespace
/// (`str::trimmed_start`).
pub open spec fn trimmed_start(s: Seq<u8>, lo: int, hi: int) -> int
    decreases hi - lo,
{
    if lo < hi && ws_at(s, lo, hi) > 0 {
        trimmed_start(s, lo + ws_at(s, lo, hi), hi)
    } else {
        lo
    }
}

/// End offset of `[lo, hi)` once trailing Unicode whitespace is dropped
/// (`str::trimmed_end`).
pub open spec fn trimmed_end(s: Seq<u8>, lo: int, hi: int) -> int
    decreases hi - lo,
{
    if lo < hi && ws_before(s, lo, hi) > 0 {
        trimmed_end(s, lo, hi - ws_before(s, lo, hi))
    } else {
        hi
    }
}

/// Number of line-feed bytes in `s[lo..hi)`.
pub open spec fn lf_count(s: Seq<u8>, lo: int, hi: int) -> nat
    decreases hi - lo,
{
    if lo >= hi {
        0
    } else {
        lf_count(s, lo, hi - 1) + if s[hi - 1] == LF {
            1nat
        } else {
            0nat
        }
    }
}

/// Line-feed counts add up over adjacent ranges, and never exceed the range.
pub proof fn lemma_lf_count_split(s: Seq<u8>, a: int, b: int, c: int)
    requires
        a <= b <= c,
    ensures
        lf_count(s, a, c) == lf_count(s, a, b) + lf_count(s, b, c),
        lf_count(s, b, c) <= c - b,
    decreases c - b,
{
    if b < c {
        lemma_lf_count_split(s, a, b, c - 1);
    }
}

/// `s[i..]` begins with the two bytes `a b`, inside `[i, hi)`.
pub open spec fn has2(s: Seq<u8>, i: int, hi: int, a: u8, b: u8) -> bool {
    0 <= i && i + 1 < hi && hi <= s.len() && s[i] == a && s[i + 1] == b
}

/// `s[i..]` begins with the three bytes `a b c`, inside `[i, hi)`.
pub open spec fn has3(s: Seq<u8>, i: int, hi: int, a: u8, b: u8, c: u8) -> bool {
    0 <= i && i + 2 < hi && hi <= s.len() && s[i] == a && s[i + 1] == b && s[i + 2] == c
}

pub fn is_ascii_ws(b: u8) -> (r: bool)
    ensures
        r == ascii_ws(b),
{
    b == SPACE || b == TAB || b == LF || b == FF || b == CR
}

pub fn is_ascii_digit(b: u8) -> (r: bool)
    ensures
        r == ascii_digit(b),
{
    DIGIT_0 <= b && b <= DIGIT_9
}

pub fn is_ascii_alpha(b: u8) -> (r: bool)
    ensures
        r == ascii_alpha(b),
{
    (UPPER_A <= b && b <= UPPER_Z) || (LOWER_A <= b && b <= LOWER_Z)
}

pub fn ascii_lower(b: u8) -> (r: u8)
    ensures
        r == lower_byte(b),
{
    if UPPER_A <= b && b <= UPPER_Z {
        b + 32
    } else {
        b
    }
}

pub fn utf8_width(b: u8) -> (r: usize)
    ensures
        r == width_of(b),
        1 <= r <= 4,
{
    if b < 0x80 {
        1
    } else if b >= 0xf0 {
        4
    } else if b >= 0xe0 {
        3
    } else if b >= 0xc0 {
        2
    } else {
        1
    }
}

pub fn ws_len_at(s: &[u8], i: usize, hi: usize) -> (r: usize)
    requires
        hi <= s@.len(),
    ensures
        r == ws_at(s@, i as int, hi as int),
        r <= 3,
{
    if !(i < hi) {
        return 0;
    }
    let b = s[i];
    if is_ascii_ws(b) || b == VT {
        1
    } else if hi - i > 1 && b == 0xc2 && (s[i + 1] == 0x85 || s[i + 1] == 0xa0) {
        2
    } else if hi - i > 2 && b == 0xe1 && s[i + 1] == 0x9a && s[i + 2] == 0x80 {
        3
    } else if hi - i > 2 && b == 0xe2 && s[i + 1] == 0x80 && ((0x80 <= s[i + 2] && s[i + 2]
        <= 0x8a) || s[i + 2] == 0xa8 || s[i + 2] == 0xa9 || s[i + 2] == 0xaf) {
        3
    } else if hi - i > 2 && b == 0xe2 && s[i + 1] == 0x81 && s[i + 2] == 0x9f {
        3
    } else if hi - i > 2 && b == 0xe3 && s[i + 1] == 0x80 && s[i + 2] == 0x80 {
        3
    } else {
        0
    }
}

pub fn ws_len_before(s: &[u8], lo: usize, j: usize) -> (r: usize)
    requires
        j <= s@.len(),
    ensures
        r == ws_before(s@, lo as int, j as int),
        r <= j - lo || r == 0,
{
    if !(lo < j) {
        return 0;
    }
    if ws_len_at(s, j - 1, j) == 1 {
        1
    } else if j - lo >= 2 && ws_len_at(s, j - 2, j) == 2 {
        2
    } else if j - lo >= 3 && ws_len_at(s, j - 3, j) == 3 {
        3
    } else {
        0
    }
}

pub fn trim_start(s: &[u8], lo: usize, hi: usize) -> (r: usize)
    requires
        lo <= hi <= s@.len(),
    ensures
        r == trimmed_start(s@, lo as int, hi as int),
        lo <= r <= hi,
{
    let mut i = lo;
    while i < hi
        invariant
            lo <= i <= hi <= s@.len(),
            trimmed_start(s@, i as int, hi as int) == trimmed_start(s@, lo as int, hi as int),
        decreases hi - i,
    {
        let w = ws_len_at(s, i, hi);
        if w == 0 {
            return i;
        }
        i = i + w;
    }
    i
}

pub fn trim_end(s: &[u8], lo: usize, hi: usize) -> (r: usize)
    requires
        lo <= hi <= s@.len(),
    ensures
        r == trimmed_end(s@, lo as int, hi as int),
        lo <= r <= hi,
{
    let mut j = hi;
    while lo < j
        invariant
            lo <= j <= hi <= s@.len(),
            trimmed_end(s@, lo as int, j as int) == trimmed_end(s@, lo as int, hi as int),
        decreases j - lo,
    {
        let w = ws_len_before(s, lo, j);
        if w == 0 {
            return j;
        }
        j = j - w;
    }
    j
}

/// Count the line feeds in `s[lo..hi)`.
pub fn count_lf(s: &[u8], lo: usize, hi: usize) -> (r: usize)
    requires
        lo <= hi <= s@.len(),
    ensures
        r == lf_count(s@, lo as int, hi as int),
{
    let mut n: usize = 0;
    let mut i = lo;
    while i < hi
        invariant
            lo <= i <= hi <= s@.len(),
            n == lf_count(s@, lo as int, i as int),
            n <= i - lo,
        decreases hi - i,
    {
        if s[i] == LF {
            n = n + 1;
        }
        i = i + 1;
    }
    n
}

pub fn at2(s: &[u8], i: usize, hi: usize, a: u8, b: u8) -> (r: bool)
    requires
        hi <= s@.len(),
    ensures
        r == has2(s@, i as int, hi as int, a, b),
{
    i < hi && hi - i > 1 && s[i] == a && s[i + 1] == b
}

pub fn at3(s: &[u8], i: usize, hi: usize, a: u8, b: u8, c: u8) -> (r: bool)
    requires
        hi <= s@.len(),
    ensures
        r == has3(s@, i as int, hi as int, a, b, c),
{
    i < hi && hi - i > 2 && s[i] == a && s[i + 1] == b && s[i + 2] == c
}

/// ASCII lowercase of every byte.
pub open spec fn lower_seq(t: Seq<u8>) -> Seq<u8> {
    t.map_values(|b: u8| lower_byte(b))
}

/// `s[lo..hi)` equals `lit`.
pub fn range_eq(s: &[u8], lo: usize, hi: usize, lit: &[u8]) -> (r: bool)
    requires
        lo <= hi <= s@.len(),
    ensures
        r == (s@.subrange(lo as int, hi as int) == lit@),
{
    if hi - lo != lit.len() {
        return false;
    }
    let mut i: usize = 0;
    while i < lit.len()
        invariant
            hi - lo == lit@.len(),
            lo <= hi <= s@.len(),
            i <= lit@.len(),
            forall|k: int| 0 <= k < i ==> s@[lo + k] == lit@[k],
        decreases lit@.len() - i,
    {
        if s[lo + i] != lit[i] {
            assert(s@.subrange(lo as int, hi as int)[i as int] != lit@[i as int]);
            return false;
        }
        i = i + 1;
    }
    assert(s@.subrange(lo as int, hi as int) =~= lit@);
    true
}

/// `s[lo..hi)` equals `lit` up to ASCII case (`str::eq_ignore_ascii_case`).
pub fn range_eq_ignore_case(s: &[u8], lo: usize, hi: usize, lit: &[u8]) -> (r: bool)
    requires
        lo <= hi <= s@.len(),
    ensures
        r == (lower_seq(s@.subrange(lo as int, hi as int)) == lower_seq(lit@)),
{
    if hi - lo != lit.len() {
        assert(lower_seq(s@.subrange(lo as int, hi as int)).len() != lower_seq(lit@).len());
        return false;
    }
    let mut i: usize = 0;
    while i < lit.len()
        invariant
            hi - lo == lit@.len(),
            lo <= hi <= s@.len(),
            i <= lit@.len(),
            forall|k: int| 0 <= k < i ==> lower_byte(#[trigger] s@[lo + k]) == lower_byte(lit@[k]),
        decreases lit@.len() - i,
    {
        if ascii_lower(s[lo + i]) != ascii_lower(lit[i]) {
            assert(lower_seq(s@.subrange(lo as int, hi as int))[i as int] != lower_seq(lit@)[i as int]);
            return false;
        }
        i = i + 1;
    }
    assert(lower_seq(s@.subrange(lo as int, hi as int)) =~= lower_seq(lit@)) by {
        assert forall|k: int| 0 <= k < lit@.len() implies lower_seq(s@.subrange(lo as int, hi as int))[k]
            == lower_seq(lit@)[k] by {
            assert(lower_byte(s@[lo + k]) == lower_byte(lit@[k]));
        }
    }
    true
}

/// `s[lo..hi)` begins with `lit`.
pub fn range_starts_with(s: &[u8], lo: usize, hi: usize, lit: &[u8]) -> (r: bool)
    requires
        lo <= hi <= s@.len(),
    ensures
        r == (lit@.len() <= hi - lo && s@.subrange(lo as int, lo + lit@.len()) == lit@),
{
    if hi - lo < lit.len() {
        return false;
    }
    range_eq(s, lo, lo + lit.len(), lit)
}

/// `m` occurs in `s` (`str::contains` on the UTF-8 bytes).
pub open spec fn seq_contains(s: Seq<u8>, m: Seq<u8>) -> bool {
    exists|i: int| 0 <= i && i + m.len() <= s.len() && #[trigger] s.subrange(i, i + m.len()) == m
}

/// Does `needle` occur in `s`?
pub fn contains(s: &[u8], needle: &[u8]) -> (r: bool)
    ensures
        r == seq_contains(s@, needle@),
{
    let n = needle.len();
    if n > s.len() {
        return false;
    }
    let mut i: usize = 0;
    while i <= s.len() - n
        invariant_except_break
            i <= s@.len() - needle@.len() + 1,
        invariant
            n == needle@.len(),
            n <= s@.len(),
            forall|j: int| 0 <= j < i ==> #[trigger] s@.subrange(j, j + n) != needle@,
        ensures
            forall|j: int| 0 <= j <= s@.len() - n ==> #[trigger] s@.subrange(j, j + n) != needle@,
        decreases s@.len() - n + 1 - i,
    {
        if range_eq(s, i, i + n, needle) {
            return true;
        }
        if i == s.len() - n {
            break;
        }
        i = i + 1;
    }
    assert forall|j: int| 0 <= j && j + needle@.len() <= s@.len() implies #[trigger] s@.subrange(
        j,
        j + needle@.len(),
    ) != needle@ by {}
    false
}

/// Some byte of `s[lo..hi)` is `b`.
pub open spec fn has_byte(s: Seq<u8>, lo: int, hi: int, b: u8) -> bool {
    exists|i: int| lo <= i < hi && s[i] == b
}

pub fn find_byte(s: &[u8], lo: usize, hi: usize, b: u8) -> (r: bool)
    requires
        lo <= hi <= s@.len(),
    ensures
        r == has_byte(s@, lo as int, hi as int, b),
{
    let mut i = lo;
    while i < hi
        invariant
            lo <= i <= hi <= s@.len(),
            forall|j: int| lo <= j < i ==> s@[j] != b,
        decreases hi - i,
    {
        if s[i] == b {
            return true;
        }
        i = i + 1;
    }
    false
}

/// The character starting at boundary `i` of valid UTF-8 `bytes` ends on a
/// boundary; its width is the width its leading byte announces.
pub proof fn lemma_next_boundary(bytes: Seq<u8>, i: int)
    requires
        valid_utf8(bytes),
        is_char_boundary(bytes, i),
        0 <= i < bytes.len(),
    ensures
        is_char_boundary(bytes, i + length_of_first_scalar(bytes.subrange(i, bytes.len() as int))),
        length_of_first_scalar(bytes.subrange(i, bytes.len() as int)) == width_of(bytes[i]),
        i + width_of(bytes[i]) <= bytes.len(),
{
    let suf = bytes.subrange(i, bytes.len() as int);
    valid_utf8_split(bytes, i);
    assert(valid_utf8(suf));
    let l = length_of_first_scalar(suf);
    assert(suf.len() > 0);
    assert(l <= suf.len());
    reveal_with_fuel(is_char_boundary, 2);
    assert(is_char_boundary(suf, l));
    if i + l == bytes.len() {
        is_char_boundary_start_end_of_seq(bytes);
    } else {
        is_char_boundary_iff_not_is_continuation_byte(suf, l);
        assert(suf[l] == bytes[i + l]);
        is_char_boundary_iff_not_is_continuation_byte(bytes, i + l);
    }
}

/// In valid UTF-8, a byte that is not a continuation byte starts a character.
pub proof fn lemma_boundary_at_lead(bytes: Seq<u8>, i: int)
    requires
        valid_utf8(bytes),
        0 <= i <= bytes.len(),
        i < bytes.len() ==> !is_continuation_byte(bytes[i]),
    ensures
        is_char_boundary(bytes, i),
{
    if i == bytes.len() {
        is_char_boundary_start_end_of_seq(bytes);
    } else {
        is_char_boundary_iff_not_is_continuation_byte(bytes, i);
    }
}

/// A whitespace character starting on a boundary ends on a boundary.
pub proof fn lemma_ws_boundaries(bytes: Seq<u8>, i: int, hi: int)
    requires
        valid_utf8(bytes),
        0 <= i < hi <= bytes.len(),
        ws_at(bytes, i, hi) > 0,
    ensures
        is_char_boundary(bytes, i),
        is_char_boundary(bytes, i + ws_at(bytes, i, hi)),
{
    lemma_boundary_at_lead(bytes, i);
    lemma_next_boundary(bytes, i);
}

/// The sub-slice `s[a..b)` of a string, between two character boundaries.
pub fn substring(s: &str, a: usize, b: usize) -> (r: &str)
    requires
        a <= b <= s.spec_bytes().len(),
        is_char_boundary(s.spec_bytes(), a as int),
        is_char_boundary(s.spec_bytes(), b as int),
    ensures
        r.spec_bytes() == s.spec_bytes().subrange(a as int, b as int),
{
    let ghost bytes = s.spec_bytes();
    proof {
        encode_utf8_valid_utf8(s@);
    }
    let (_, tail) = s.split_at(a);
    proof {
        valid_utf8_split(bytes, a as int);
        let t = tail.spec_bytes();
        assert(t =~= bytes.subrange(a as int, bytes.len() as int));
        if b == bytes.len() {
            is_char_boundary_start_end_of_seq(t);
            assert(t.len() == b - a);
        } else {
            is_char_boundary_iff_not_is_continuation_byte(bytes, b as int);
            assert(t[b - a] == bytes[b as int]);
            is_char_boundary_iff_not_is_continuation_byte(t, b - a);
        }
    }
    let (mid, _) = tail.split_at(b - a);
    assert(mid.spec_bytes() =~= bytes.subrange(a as int, b as int));
    mid
}

/// End of the non-whitespace run that starts at `i` inside `[i, hi)`.
pub open spec fn word_end(s: Seq<u8>, i: int, hi: int) -> int
    decreases if i < hi { hi - i } else { 0 },
{
    if i >= hi || i < 0 || ws_at(s, i, hi) > 0 {
        i
    } else {
        word_end(s, i + 1, hi)
    }
}

pub proof fn lemma_word_end(s: Seq<u8>, i: int, hi: int)
    ensures
        i <= word_end(s, i, hi),
        i < hi ==> word_end(s, i, hi) <= hi,
        0 <= i < hi && ws_at(s, i, hi) == 0 ==> i < word_end(s, i, hi),
        word_end(s, i, hi) < hi && 0 <= i ==> ws_at(s, word_end(s, i, hi), hi) > 0,
    decreases if i < hi { hi - i } else { 0 },
{
    if !(i >= hi || i < 0 || ws_at(s, i, hi) > 0) {
        lemma_word_end(s, i + 1, hi);
    }
}

pub fn find_word_end(s: &[u8], i: usize, hi: usize) -> (r: usize)
    requires
        i <= hi <= s@.len(),
    ensures
        r == word_end(s@, i as int, hi as int),
        i <= r <= hi,
{
    let mut j = i;
    while j < hi && ws_len_at(s, j, hi) == 0
        invariant
            i <= j <= hi <= s@.len(),
            word_end(s@, j as int, hi as int) == word_end(s@, i as int, hi as int),
        decreases hi - j,
    {
        j = j + 1;
    }
    j
}

/// The bytes between two character boundaries of valid UTF-8 are valid UTF-8.
pub proof fn lemma_valid_subrange(bytes: Seq<u8>, a: int, b: int)
    requires
        valid_utf8(bytes),
        0 <= a <= b <= bytes.len(),
        is_char_boundary(bytes, a),
        is_char_boundary(bytes, b),
    ensures
        valid_utf8(bytes.subrange(a, b)),
{
    valid_utf8_split(bytes, a);
    let t = bytes.subrange(a, bytes.len() as int);
    if b == bytes.len() {
        assert(t =~= bytes.subrange(a, b));
    } else {
        is_char_boundary_iff_not_is_continuation_byte(bytes, b);
        assert(t[b - a] == bytes[b]);
        is_char_boundary_iff_not_is_continuation_byte(t, b - a);
        valid_utf8_split(t, b - a);
        assert(t.subrange(0, b - a) =~= bytes.subrange(a, b));
    }
}

/// `n` line feeds.
pub open spec fn newlines(n: nat) -> Seq<u8> {
    Seq::new(n, |i: int| LF)
}

/// The line feeds of `s[lo..hi)` are those of the sub-sequence itself.
pub proof fn lemma_lf_count_sub(s: Seq<u8>, lo: int, hi: int)
    requires
        0 <= lo <= hi <= s.len(),
    ensures
        lf_count(s, lo, hi) == lf_count(s.subrange(lo, hi), 0, hi - lo),
    decreases hi - lo,
{
    if lo < hi {
        lemma_lf_count_sub(s, lo, hi - 1);
        let t = s.subrange(lo, hi);
        assert(s.subrange(lo, hi - 1) =~= t.subrange(0, hi - 1 - lo));
        lemma_lf_count_sub(t, 0, hi - 1 - lo);
    }
}

/// Line feeds of a concatenation: a prefix counts as in `x`, the whole as the
/// sum of both parts.
pub proof fn lemma_lf_count_concat(x: Seq<u8>, y: Seq<u8>, p: int)
    requires
        0 <= p <= x.len(),
    ensures
        lf_count(x + y, 0, p) == lf_count(x, 0, p),
        lf_count(x + y, 0, (x.len() + y.len()) as int) == lf_count(x, 0, x.len() as int) + lf_count(y, 0, y.len() as int),
{
    let z = x + y;
    lemma_lf_count_sub(z, 0, p);
    lemma_lf_count_sub(x, 0, p);
    assert(z.subrange(0, p) =~= x.subrange(0, p));
    lemma_lf_count_split(z, 0, x.len() as int, (x.len() + y.len()) as int);
    lemma_lf_count_sub(z, 0, x.len() as int);
    lemma_lf_count_sub(x, 0, x.len() as int);
    assert(z.subrange(0, x.len() as int) =~= x.subrange(0, x.len() as int));
    lemma_lf_count_sub(z, x.len() as int, (x.len() + y.len()) as int);
    lemma_lf_count_sub(y, 0, y.len() as int);
    assert(z.subrange(x.len() as int, (x.len() + y.len()) as int) =~= y.subrange(0, y.len() as int));
}

/// A run of line feeds counts itself, and is valid UTF-8.
pub proof fn lemma_newlines(n: nat)
    ensures
        lf_count(newlines(n), 0, n as int) == n,
        valid_utf8(newlines(n)),
    decreases n,
{
    if n > 0 {
        let m = (n - 1) as nat;
        lemma_newlines(m);
        assert(newlines(n) =~= newlines(m) + seq![LF]);
        lemma_lf_count_concat(newlines(m), seq![LF], 0);
        assert(lf_count(seq![LF], 0, 1) == 1) by {
            reveal_with_fuel(lf_count, 2);
        }
        assert(valid_utf8(seq![LF])) by {
            reveal_with_fuel(valid_utf8, 2);
            assert(seq![LF].subrange(1, 1) =~= Seq::<u8>::empty());
        }
        vstd::utf8::valid_utf8_concat(newlines(m), seq![LF]);
    }
}

/// Append `n` line feeds to `out`.
pub fn push_newlines(out: &mut Vec<u8>, n: usize)
    ensures
        final(out)@ == old(out)@ + newlines(n as nat),
{
    let ghost start = out@;
    let mut i: usize = 0;
    while i < n
        invariant
            i <= n,
            out@ == start + newlines(i as nat),
        decreases n - i,
    {
        out.push(LF);
        assert(start + newlines((i + 1) as nat) =~= (start + newlines(i as nat)).push(LF));
        i = i + 1;
    }
}

/// Append the bytes `s[lo..hi)` to `out`.
pub fn push_range(out: &mut Vec<u8>, s: &[u8], lo: usize, hi: usize)
    requires
        lo <= hi <= s@.len(),
    ensures
        final(out)@ == old(out)@ + s@.subrange(lo as int, hi as int),
{
    let ghost start = out@;
    let mut i = lo;
    while i < hi
        invariant
            lo <= i <= hi <= s@.len(),
            out@ == start + s@.subrange(lo as int, i as int),
        decreases hi - i,
    {
        out.push(s[i]);
        assert(start + s@.subrange(lo as int, i + 1) =~= (start + s@.subrange(lo as int, i as int)).push(s@[i as int]));
        i = i + 1;
    }
}

/// `String::from_utf8`: the bytes as a `String`, when they are valid UTF-8.
///
/// Trusted: the result is `Some` exactly when `bytes` is valid UTF-8 (the
/// standard library documents `Err` for invalid input), and then the string's
/// UTF-8 encoding is `bytes`.
#[verifier::external_body]
pub(crate) fn utf8_string(bytes: Vec<u8>) -> (r: Option<String>)
    ensures
        r is Some <==> valid_utf8(bytes@),
        r matches Some(st) ==> encode_utf8(st@) == bytes@,
{
    match String::from_utf8(bytes) {
        Ok(st) => Some(st),
        Err(_) => None,
    }
}

/// A single ASCII byte is valid UTF-8.
pub proof fn lemma_ascii_byte_valid(b: u8)
    requires
        b < 0x80,
    ensures
        valid_utf8(seq![b]),
{
    reveal_with_fuel(valid_utf8, 2);
    assert(seq![b].subrange(1, 1) =~= Seq::<u8>::empty());
}

/// The decimal digits of `n`, most significant first, as ASCII bytes.
pub open spec fn decimal(n: nat) -> Seq<u8>
    decreases n,
{
    if n < 10 {
        seq![(0x30 + n) as u8]
    } else {
        decimal(n / 10).push((0x30 + n % 10) as u8)
    }
}

/// Decimal digits are valid UTF-8.
pub proof fn lemma_decimal_valid(n: nat)
    ensures
        valid_utf8(decimal(n)),
    decreases n,
{
    lemma_ascii_byte_valid((0x30 + n % 10) as u8);
    if n >= 10 {
        lemma_decimal_valid(n / 10);
        vstd::utf8::valid_utf8_concat(decimal(n / 10), seq![(0x30 + n % 10) as u8]);
        assert(decimal(n) =~= decimal(n / 10) + seq![(0x30 + n % 10) as u8]);
    }
}

/// Append the decimal digits of `n` to `out`.
pub fn push_decimal(out: &mut Vec<u8>, n: u32)
    ensures
        final(out)@ == old(out)@ + decimal(n as nat),
    decreases n,
{
    if n >= 10 {
        push_decimal(out, n / 10);
    }
    out.push(0x30 + (n % 10) as u8);
    proof {
        if n >= 10 {
            assert(old(out)@ + decimal(n as nat) =~= (old(out)@ + decimal((n / 10) as nat)).push((0x30 + n % 10) as u8));
        } else {
            assert(old(out)@ + decimal(n as nat) =~= old(out)@.push((0x30 + n % 10) as u8));
        }
    }
}

/// A string's UTF-8 encoding is empty exactly when the string is.
pub proof fn lemma_encode_empty(chars: Seq<char>)
    ensures
        (encode_utf8(chars).len() == 0) == (chars.len() == 0),
{
    if chars.len() > 0 {
        assert(vstd::utf8::encode_scalar(chars[0] as u32).len() > 0);
    }
}

/// Two strings are equal (`str == str`, compared byte by byte).
pub fn str_eq(a: &str, b: &str) -> (r: bool)
    ensures
        r == (a@ == b@),
{
    let x = a.as_bytes();
    let y = b.as_bytes();
    let eq = range_eq(x, 0, x.len(), y);
    proof {
        assert(x@.subrange(0, x@.len() as int) =~= x@);
        vstd::utf8::encode_utf8_decode_utf8(a@);
        vstd::utf8::encode_utf8_decode_utf8(b@);
    }
    eq
}

/// Byte-lexicographic order of strings (`str`'s `Ord`): `a` sorts before `b`.
pub open spec fn bytes_less(a: Seq<u8>, b: Seq<u8>) -> bool
    decreases a.len(),
{
    if a.len() == 0 {
        b.len() > 0
    } else if b.len() == 0 {
        false
    } else if a[0] != b[0] {
        a[0] < b[0]
    } else {
        bytes_less(a.drop_first(), b.drop_first())
    }
}

/// Whether `a` sorts before `b` byte by byte (see [`bytes_less`]).
pub fn bytes_less_exec(a: &[u8], b: &[u8]) -> (r: bool)
    ensures
        r == bytes_less(a@, b@),
{
    let mut i: usize = 0;
    assert(a@.subrange(0, a@.len() as int) =~= a@);
    assert(b@.subrange(0, b@.len() as int) =~= b@);
    while i < a.len() && i < b.len() && a[i] == b[i]
        invariant
            i <= a@.len(),
            i <= b@.len(),
            bytes_less(a@, b@) == bytes_less(a@.subrange(i as int, a@.len() as int), b@.subrange(i as int, b@.len() as int)),
        decreases a@.len() - i,
    {
        proof {
            let sa = a@.subrange(i as int, a@.len() as int);
            let sb = b@.subrange(i as int, b@.len() as int);
            assert(sa.drop_first() =~= a@.subrange(i + 1, a@.len() as int));
            assert(sb.drop_first() =~= b@.subrange(i + 1, b@.len() as int));
        }
        i = i + 1;
    }
    if i == a.len() {
        i < b.len()
    } else if i == b.len() {
        false
    } else {
        a[i] < b[i]
    }
}

pub proof fn lemma_bytes_less_irreflexive(a: Seq<u8>)
    ensures
        !bytes_less(a, a),
    decreases a.len(),
{
    if a.len() > 0 {
        lemma_bytes_less_irreflexive(a.drop_first());
    }
}

pub proof fn lemma_bytes_less_transitive(a: Seq<u8>, b: Seq<u8>, c: Seq<u8>)
    requires
        bytes_less(a, b),
        bytes_less(b, c),
    ensures
        bytes_less(a, c),
    decreases a.len(),
{
    if a.len() > 0 && a[0] == b[0] && b[0] == c[0] {
        lemma_bytes_less_transitive(a.drop_first(), b.drop_first(), c.drop_first());
    }
}

pub proof fn lemma_bytes_less_total(a: Seq<u8>, b: Seq<u8>)
    requires
        a != b,
    ensures
        bytes_less(a, b) || bytes_less(b, a),
    decreases a.len(),
{
    if a.len() > 0 && b.len() > 0 && a[0] == b[0] {
        if a.drop_first() == b.drop_first() {
            assert(a =~= seq![a[0]] + a.drop_first());
            assert(b =~= seq![b[0]] + b.drop_first());
        }
        lemma_bytes_less_total(a.drop_first(), b.drop_first());
    } else if a.len() == 0 && b.len() == 0 {
        assert(a =~= b);
    }
}

} // verus!
