//! Byte-column to UTF-16 conversion at the LSP protocol boundary.
//!
//! Analysis results carry 0-based byte columns; the LSP wire contract uses
//! UTF-16 code units. Every UTF-8 sequence of one to three bytes encodes a
//! character of one UTF-16 unit, a four-byte sequence one of two, so the
//! UTF-16 length of valid UTF-8 is its number of non-continuation bytes plus
//! its number of four-byte lead bytes.

use vstd::prelude::*;
use vstd::string::StringSliceAdditionalSpecFns;
use vstd::utf8::is_continuation_byte;

use crate::text::LF;

verus! {

/// UTF-16 code units of the UTF-8 bytes `s[lo..hi)`.
pub open spec fn utf16_units(s: Seq<u8>, lo: int, hi: int) -> nat
    decreases hi - lo,
{
    if lo >= hi {
        0
    } else {
        utf16_units(s, lo, hi - 1) + (if is_continuation_byte(s[hi - 1]) {
            0nat
        } else {
            1nat
        }) + (if s[hi - 1] >= 0xf0 {
            1nat
        } else {
            0nat
        })
    }
}

/// Start offset of line `n` (0-based) when scanning from `i`, or `-1` when the
/// text has fewer lines (`str::split('\n').nth(n)`).
pub open spec fn line_start_from(s: Seq<u8>, i: int, n: nat) -> int
    decreases s.len() - i,
{
    if n == 0 {
        i
    } else if i < 0 || i >= s.len() {
        -1
    } else if s[i] == LF {
        line_start_from(s, i + 1, (n - 1) as nat)
    } else {
        line_start_from(s, i + 1, n)
    }
}

/// End of the line that starts at `i`: the next line feed, or the end.
pub open spec fn line_end_from(s: Seq<u8>, i: int) -> int
    decreases s.len() - i,
{
    if i < 0 || i >= s.len() || s[i] == LF {
        i
    } else {
        line_end_from(s, i + 1)
    }
}

/// Move `p` back, not below `lo`, to the start of the character it falls in.
pub open spec fn char_floor(s: Seq<u8>, lo: int, p: int) -> int
    decreases p - lo,
{
    if p <= lo || p >= s.len() || !is_continuation_byte(s[p]) {
        p
    } else {
        char_floor(s, lo, p - 1)
    }
}

/// `n` saturated to `u32::MAX`.
pub open spec fn sat_u32(n: nat) -> u32 {
    if n > u32::MAX {
        u32::MAX
    } else {
        n as u32
    }
}

/// The UTF-16 column of byte column `byte_col` on line `line0` of `s`: the
/// column is clamped to the line's length and moved back to a character
/// start; a missing line leaves the byte column unchanged.
pub open spec fn utf16_column(s: Seq<u8>, line0: u32, byte_col: u32) -> u32 {
    let st = line_start_from(s, 0, line0 as nat);
    if st < 0 {
        byte_col
    } else {
        let e = line_end_from(s, st);
        let col = if st + byte_col < e {
            st + byte_col
        } else {
            e
        };
        sat_u32(utf16_units(s, st, char_floor(s, st, col)))
    }
}

/// Convert a 0-based byte column on a 0-based line of `content` to a UTF-16
/// column. The column is clamped to the line's end and moved back to the
/// start of the character it falls in; when the line does not exist the
/// byte column is returned unchanged.
pub fn byte_col_to_utf16(content: &str, line0: u32, byte_col: u32) -> (r: u32)
    ensures
        r == utf16_column(content.spec_bytes(), line0, byte_col),
{
    let s = content.as_bytes();
    let n = s.len();
    // Find the start of line `line0`.
    let mut i: usize = 0;
    let mut remaining: u32 = line0;
    while remaining > 0 && i < n
        invariant
            i <= n == s@.len(),
            line_start_from(s@, i as int, remaining as nat) == line_start_from(s@, 0, line0 as nat),
        decreases n - i,
    {
        if s[i] == LF {
            remaining = remaining - 1;
        }
        i = i + 1;
    }
    if remaining > 0 {
        return byte_col;
    }
    let st = i;
    let mut e = st;
    while e < n && s[e] != LF
        invariant
            st <= e <= n == s@.len(),
            line_end_from(s@, e as int) == line_end_from(s@, st as int),
        decreases n - e,
    {
        e = e + 1;
    }
    let bc = byte_col as usize;
    let mut col = if bc < e - st {
        st + bc
    } else {
        e
    };
    while col > st && col < n && (0x80 <= s[col] && s[col] <= 0xbf)
        invariant
            st <= col <= e <= n == s@.len(),
            char_floor(s@, st as int, col as int) == char_floor(
                s@,
                st as int,
                if st + byte_col < e {
                    st + byte_col
                } else {
                    e as int
                },
            ),
        decreases col - st,
    {
        col = col - 1;
    }
    utf16_units_in(s, st, col)
}

/// UTF-16 code units of `s[lo..hi)`, saturated to `u32::MAX`.
fn utf16_units_in(s: &[u8], lo: usize, hi: usize) -> (r: u32)
    requires
        lo <= hi <= s@.len(),
    ensures
        r == sat_u32(utf16_units(s@, lo as int, hi as int)),
{
    let mut units: usize = 0;
    let mut k = lo;
    while k < hi
        invariant
            lo <= k <= hi <= s@.len(),
            units == if utf16_units(s@, lo as int, k as int) > usize::MAX {
                usize::MAX as nat
            } else {
                utf16_units(s@, lo as int, k as int)
            },
        decreases hi - k,
    {
        let b = s[k];
        let w: usize = if 0x80 <= b && b <= 0xbf {
            0
        } else if b >= 0xf0 {
            2
        } else {
            1
        };
        units = units.saturating_add(w);
        k = k + 1;
    }
    if units > 0xffff_ffff {
        0xffff_ffff
    } else {
        units as u32
    }
}

/// The UTF-16 span `(start, start + width)` of an identifier that begins at
/// UTF-16 column `start`, where `width` is the identifier's UTF-16 length;
/// both saturate at `u32::MAX`.
pub fn utf16_span(start: u32, ident: &str) -> (r: (u32, u32))
    ensures
        r.0 == start,
        r.1 == sat_u32((start + sat_u32(utf16_units(ident.spec_bytes(), 0, ident.spec_bytes().len() as int))) as nat),
{
    let b = ident.as_bytes();
    let width = utf16_units_in(b, 0, b.len());
    (start, start.saturating_add(width))
}

} // verus!
