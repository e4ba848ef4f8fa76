//! Ranges of the language server's diagnostics.

use vstd::prelude::*;

verus! {

/// A 0-based line and UTF-16 character offset (LSP `Position`).
#[derive(Debug, Clone, Copy, PartialEq, Eq, Structural)]
pub struct Position {
    pub line: u32,
    pub character: u32,
}

/// A start and end position (LSP `Range`).
#[derive(Debug, Clone, Copy, PartialEq, Eq, Structural)]
pub struct Range {
    pub start: Position,
    pub end: Position,
}

/// The range covering the entire first line, used for file-level and
/// `package.json` diagnostics: line 0 from character 0 to `u32::MAX`.
pub fn first_line_range() -> (r: Range)
    ensures
        r == (Range { start: Position { line: 0, character: 0 }, end: Position { line: 0, character: u32::MAX } }),
{
    Range { start: Position { line: 0, character: 0 }, end: Position { line: 0, character: u32::MAX } }
}

} // verus!
