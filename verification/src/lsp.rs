//! Source-position ↔ LSP-position conversion, and the semantic-token
//! encoding.
//!
//! The frontend reports positions as a [`Span`] — a `(line, col)` pair,
//! 1-based, where `col` counts **bytes** from the line's start.  LSP wants
//! `line` / `character`, both 0-based, with `character` in **UTF-16 code
//! units**.  This module owns that conversion.  All helpers take the source
//! text and its line-start byte offsets, so they are pure and reusable.
//!
//! A byte offset into the source is meaningful only at a character boundary:
//! [`is_boundary`] says so in terms of the characters before it.

use vstd::prelude::*;

use vstd::string::StringSliceAdditionalSpecFns;

use crate::ir::Span;
use crate::lex::{
    char_width, chars_of, lemma_text_width_step, lemma_text_width_utf8, line_ends, line_table,
    text_width,
};

verus! {

/// A 0-based LSP position: the line, and the character within it in UTF-16
/// code units.
#[derive(Clone, Copy, PartialEq, Eq, Debug, Structural)]
pub struct Position {
    pub line: u32,
    pub character: u32,
}

/// A half-open LSP range.
#[derive(Clone, Copy, PartialEq, Eq, Debug, Structural)]
pub struct Range {
    pub start: Position,
    pub end: Position,
}

// ---------------------------------------------------------------------------
// Characters and offsets

/// The number of UTF-16 code units that encode `c`.
pub open spec fn utf16_width(c: char) -> nat {
    if (c as u32) >= 0x10000 {
        2
    } else {
        1
    }
}

/// The number of UTF-16 code units that encode `s`.
pub open spec fn utf16_units(s: Seq<char>) -> nat
    decreases s.len(),
{
    if s.len() == 0 {
        0
    } else {
        utf16_units(s.drop_last()) + utf16_width(s.last())
    }
}

/// Whether byte offset `off` falls between two characters of `cs` (or at
/// either end).
pub open spec fn is_boundary(cs: Seq<char>, off: int) -> bool {
    exists|k: int| 0 <= k <= cs.len() && text_width(cs.take(k)) == off
}

/// The number of characters before byte offset `off`, at a boundary.
pub open spec fn char_index(cs: Seq<char>, off: int) -> int {
    choose|k: int| 0 <= k <= cs.len() && text_width(cs.take(k)) == off
}

/// The width of a prefix grows strictly with its length.
pub proof fn lemma_prefix_width_strict(cs: Seq<char>, a: int, b: int)
    requires
        0 <= a < b <= cs.len(),
    ensures
        text_width(cs.take(a)) < text_width(cs.take(b)),
    decreases b - a,
{
    lemma_text_width_step(cs, b - 1);
    crate::lex::lemma_char_width_bounds(cs[b - 1]);
    if a < b - 1 {
        lemma_prefix_width_strict(cs, a, b - 1);
    }
}

/// At a boundary, the character index is the one whose prefix is that wide.
pub proof fn lemma_char_index(cs: Seq<char>, off: int)
    requires
        is_boundary(cs, off),
    ensures
        0 <= char_index(cs, off) <= cs.len(),
        text_width(cs.take(char_index(cs, off))) == off,
        forall|k: int|
            0 <= k <= cs.len() && text_width(cs.take(k)) == off ==> k == char_index(cs, off),
{
    assert forall|k: int| 0 <= k <= cs.len() && text_width(cs.take(k)) == off implies k
        == char_index(cs, off) by {
        let c = char_index(cs, off);
        if k < c {
            lemma_prefix_width_strict(cs, k, c);
        }
        if c < k {
            lemma_prefix_width_strict(cs, c, k);
        }
    }
}

/// The character index of a boundary byte offset.
fn char_index_of(cs: &Vec<char>, off: usize) -> (k: usize)
    requires
        is_boundary(cs@, off as int),
    ensures
        k == char_index(cs@, off as int),
{
    proof {
        lemma_char_index(cs@, off as int);
    }
    let ghost target = char_index(cs@, off as int);
    let mut k: usize = 0;
    let mut b: usize = 0;
    let n = cs.len();
    assert(cs@.take(0) =~= Seq::<char>::empty());
    while b < off
        invariant
            n == cs@.len(),
            0 <= target <= cs@.len(),
            text_width(cs@.take(target)) == off,
            k <= target,
            b == text_width(cs@.take(k as int)),
            b <= off,
        decreases off - b,
    {
        proof {
            if k == target {
                assert(false);
            }
            lemma_text_width_step(cs@, k as int);
            if k + 1 < target {
                lemma_prefix_width_strict(cs@, k + 1, target);
            }
        }
        b = b + char_width_usize(cs[k]);
        k += 1;
    }
    proof {
        if k < target {
            lemma_prefix_width_strict(cs@, k as int, target);
        }
    }
    k
}

fn char_width_usize(c: char) -> (w: usize)
    ensures
        w == char_width(c),
{
    let u = c as u32;
    if u < 0x80 {
        1
    } else if u < 0x800 {
        2
    } else if u < 0x10000 {
        3
    } else {
        4
    }
}

fn utf16_width_of(c: char) -> (w: usize)
    ensures
        w == utf16_width(c),
{
    if (c as u32) >= 0x10000 {
        2
    } else {
        1
    }
}

/// The UTF-16 code units of `cs[from..to]`.
fn utf16_units_in(cs: &Vec<char>, from: usize, to: usize) -> (n: usize)
    requires
        from <= to <= cs@.len(),
        text_width(cs@.subrange(from as int, to as int)) <= usize::MAX,
    ensures
        n == utf16_units(cs@.subrange(from as int, to as int)),
        n <= text_width(cs@.subrange(from as int, to as int)),
{
    let mut n: usize = 0;
    let mut i = from;
    assert(cs@.subrange(from as int, from as int) =~= Seq::<char>::empty());
    while i < to
        invariant
            from <= i <= to <= cs@.len(),
            n == utf16_units(cs@.subrange(from as int, i as int)),
            n <= text_width(cs@.subrange(from as int, i as int)),
            text_width(cs@.subrange(from as int, to as int)) <= usize::MAX,
        decreases to - i,
    {
        proof {
            assert(cs@.subrange(from as int, i + 1).drop_last() =~= cs@.subrange(
                from as int,
                i as int,
            ));
            lemma_width_parts(cs@, from as int, i as int, i + 1);
            lemma_width_parts(cs@, from as int, i + 1, to as int);
            lemma_width_one(cs@, i as int);
        }
        n = n + utf16_width_of(cs[i]);
        i += 1;
    }
    n
}

/// The width of `cs[from..to]` is the width of its two parts split at `mid`.
proof fn lemma_width_parts(cs: Seq<char>, from: int, mid: int, to: int)
    requires
        0 <= from <= mid <= to <= cs.len(),
    ensures
        text_width(cs.subrange(from, to)) == text_width(cs.subrange(from, mid)) + text_width(
            cs.subrange(mid, to),
        ),
        text_width(cs.subrange(from, mid)) >= 0,
        text_width(cs.subrange(mid, to)) >= 0,
{
    assert(cs.subrange(from, to) =~= cs.subrange(from, mid) + cs.subrange(mid, to));
    crate::lex::lemma_text_width_concat(cs.subrange(from, mid), cs.subrange(mid, to));
    crate::lex::lemma_text_width_nonneg(cs.subrange(from, mid));
    crate::lex::lemma_text_width_nonneg(cs.subrange(mid, to));
}

/// One character's width, and its UTF-16 width no larger.
proof fn lemma_width_one(cs: Seq<char>, i: int)
    requires
        0 <= i < cs.len(),
    ensures
        text_width(cs.subrange(i, i + 1)) == char_width(cs[i]),
        utf16_width(cs[i]) <= char_width(cs[i]),
{
    assert(cs.subrange(i, i + 1).drop_first() =~= Seq::<char>::empty());
    assert(text_width(Seq::<char>::empty()) == 0);
}

/// The number of UTF-16 code units in `text` (LSP's `character` unit).
pub fn utf16_len(text: &str) -> (n: usize)
    requires
        text.spec_bytes().len() <= usize::MAX,
    ensures
        n == utf16_units(text@),
{
    let cs = chars_of(text);
    assert(cs@.subrange(0, cs@.len() as int) =~= cs@);
    proof {
        lemma_text_width_utf8(text@);
    }
    utf16_units_in(&cs, 0, cs.len())
}

// ---------------------------------------------------------------------------
// Line starts

/// Line-start offsets as a line table holds them: strictly increasing.
pub open spec fn ascending(starts: Seq<usize>) -> bool {
    forall|i: int, j: int| 0 <= i < j < starts.len() ==> starts[i] < starts[j]
}

/// How many leading line starts are at or before `off`.
pub open spec fn starts_at_or_before(starts: Seq<usize>, off: int) -> nat
    decreases starts.len(),
{
    if starts.len() > 0 && starts[0] <= off {
        1 + starts_at_or_before(starts.drop_first(), off)
    } else {
        0
    }
}

/// The 0-based line holding byte offset `off`: the last line starting at or
/// before it (line 0 when none does).
pub open spec fn line_index(starts: Seq<usize>, off: int) -> nat {
    let n = starts_at_or_before(starts, off);
    if n == 0 {
        0
    } else {
        (n - 1) as nat
    }
}

proof fn lemma_starts_at_or_before(starts: Seq<usize>, off: int, p: int)
    requires
        0 <= p <= starts.len(),
        forall|i: int| 0 <= i < p ==> starts[i] <= off,
        p < starts.len() ==> starts[p] > off,
    ensures
        starts_at_or_before(starts, off) == p,
    decreases p,
{
    if p > 0 {
        lemma_starts_at_or_before(starts.drop_first(), off, p - 1);
    }
}

/// The number of leading line starts at or before `off`, by binary search.
/// On a table out of order the search still ends just past a start at or
/// before `off` (or at 0).
fn count_starts(starts: &[usize], off: usize) -> (n: usize)
    ensures
        ascending(starts@) ==> n == starts_at_or_before(starts@, off as int),
        n <= starts@.len(),
        n > 0 ==> starts@[n - 1] <= off,
{
    let mut lo: usize = 0;
    let mut hi: usize = starts.len();
    while lo < hi
        invariant
            lo <= hi <= starts@.len(),
            lo > 0 ==> starts@[lo - 1] <= off,
            ascending(starts@) ==> forall|i: int| 0 <= i < lo ==> starts@[i] <= off,
            ascending(starts@) ==> forall|i: int| hi <= i < starts@.len() ==> starts@[i] > off,
        decreases hi - lo,
    {
        let mid = lo + (hi - lo) / 2;
        if starts[mid] <= off {
            lo = mid + 1;
        } else {
            hi = mid;
        }
    }
    proof {
        if ascending(starts@) {
            lemma_starts_at_or_before(starts@, off as int, lo as int);
        }
    }
    lo
}

/// The 0-based line of byte offset `off`.
fn line_of(starts: &[usize], off: usize) -> (line: usize)
    requires
        ascending(starts@),
    ensures
        line == line_index(starts@, off as int),
        starts@.len() > 0 ==> line < starts@.len(),
{
    let n = count_starts(starts, off);
    if n == 0 {
        0
    } else {
        n - 1
    }
}

/// The byte offset at which line `line` (0-based) starts: 0 past the table.
pub open spec fn line_start(starts: Seq<usize>, line: int) -> int {
    if 0 <= line < starts.len() {
        starts[line] as int
    } else {
        0
    }
}

// ---------------------------------------------------------------------------
// Spans

/// The byte offset of a 1-based `(line, col)` span: a line outside the table
/// gives the start of the last line (or 0 for an empty table).
pub open spec fn span_offset(starts: Seq<usize>, span: Span) -> int {
    let (line, col) = (span.0 as int, span.1 as int);
    if line == 0 || line > starts.len() {
        if starts.len() == 0 {
            0
        } else {
            starts.last() as int
        }
    } else {
        starts[line - 1] + if col >= 1 {
            col - 1
        } else {
            0
        }
    }
}

/// The byte offset of a 1-based `(line, col)` span in `source`.
pub fn offset_of_span(line_starts: &[usize], span: Span) -> (off: usize)
    requires
        span_offset(line_starts@, span) <= usize::MAX,
    ensures
        off == span_offset(line_starts@, span),
{
    let (line, col) = (span.0 as usize, span.1 as usize);
    if line == 0 || line > line_starts.len() {
        return if line_starts.len() == 0 {
            0
        } else {
            line_starts[line_starts.len() - 1]
        };
    }
    line_starts[line - 1] + (col.saturating_sub(1))
}

/// The 1-based `(line, col-byte)` span of byte offset `off`.
pub open spec fn span_at(starts: Seq<usize>, off: int) -> Span {
    let line = line_index(starts, off);
    ((line + 1) as u32, (off - line_start(starts, line as int) + 1) as u32)
}

/// A 1-based `(line, col-byte)` span for a byte offset (the reverse of
/// [`offset_of_span`]).  On a table in ascending order the line is the last
/// one starting at or before the offset; on one out of order it is some line
/// starting at or before it (line 1 when none does, or the table is empty).
pub fn span_of_offset(line_starts: &[usize], offset: usize) -> (span: Span)
    requires
        line_starts@.len() == 0 || line_starts@[0] <= offset,
        offset < usize::MAX,
    ensures
        ascending(line_starts@) ==> span == span_at(line_starts@, offset as int),
        exists|line: int|
            (line == 0 || 0 <= line < line_starts@.len()) && line_start(line_starts@, line) <= offset
                && span == (((line + 1) as u32), ((offset - line_start(line_starts@, line) + 1) as u32)),
{
    let n = count_starts(line_starts, offset);
    let line: usize = if n == 0 {
        0
    } else {
        n - 1
    };
    let start = if line < line_starts.len() {
        line_starts[line]
    } else {
        0
    };
    proof {
        if ascending(line_starts@) && line_starts@.len() > 0 {
            lemma_starts_le(line_starts@, offset as int);
        }
        assert(start == line_start(line_starts@, line as int));
    }
    (((line + 1) as u32), ((offset - start + 1) as u32))
}

/// The line start found for an offset lies at or before it, once the first
/// line does.
proof fn lemma_starts_le(starts: Seq<usize>, off: int)
    requires
        starts.len() > 0,
        starts[0] <= off,
    ensures
        starts_at_or_before(starts, off) >= 1,
        starts[starts_at_or_before(starts, off) - 1] <= off,
        starts_at_or_before(starts, off) <= starts.len(),
    decreases starts.len(),
{
    if starts.len() > 1 && starts[1] <= off {
        lemma_starts_le(starts.drop_first(), off);
    } else {
        assert(starts_at_or_before(starts.drop_first(), off) == 0);
    }
}

// ---------------------------------------------------------------------------
// Positions

/// The byte length of the source.
pub open spec fn byte_len(cs: Seq<char>) -> int {
    text_width(cs)
}

/// The clamp of a byte offset to the source.
pub open spec fn clamp(cs: Seq<char>, off: int) -> int {
    if off < byte_len(cs) {
        off
    } else {
        byte_len(cs)
    }
}

/// When [`position_at_offset`] is defined for `offset`: the offset (clamped)
/// and its line's start are character boundaries, and the first line starts
/// no later than the offset.
pub open spec fn position_ok(cs: Seq<char>, starts: Seq<usize>, offset: int) -> bool {
    let off = clamp(cs, offset);
    let ls = line_start(starts, line_index(starts, off) as int);
    &&& ascending(starts)
    &&& starts.len() == 0 || starts[0] <= off
    &&& is_boundary(cs, off)
    &&& is_boundary(cs, clamp(cs, ls))
}

/// When [`position_at_offset`] can take `offset` on any line table: the
/// offset (clamped) is a character boundary and the first line starts no
/// later; on a table in ascending order its line's start is a boundary, and
/// on one out of order (where the search may settle on any line starting at
/// or before the offset) every such line's start is.
pub open spec fn position_safe(cs: Seq<char>, starts: Seq<usize>, offset: int) -> bool {
    let off = clamp(cs, offset);
    &&& starts.len() == 0 || starts[0] <= off
    &&& is_boundary(cs, off)
    &&& ascending(starts) ==> is_boundary(
        cs,
        clamp(cs, line_start(starts, line_index(starts, off) as int)),
    )
    &&& !ascending(starts) ==> forall|j: int|
        0 <= j < starts.len() && starts[j] <= off ==> is_boundary(cs, clamp(cs, #[trigger] starts[j] as int))
}

/// The 0-based LSP position of byte offset `offset` on line `line`: the
/// line, and the UTF-16 units from the line's start to the offset.
pub open spec fn line_position(cs: Seq<char>, starts: Seq<usize>, offset: int, line: int) -> Position {
    let off = clamp(cs, offset);
    let ls = clamp(cs, line_start(starts, line));
    Position {
        line: line as u32,
        character: utf16_units(cs.subrange(char_index(cs, ls), char_index(cs, off))) as u32,
    }
}

/// The 0-based LSP position of byte offset `offset`.
pub open spec fn position_of(cs: Seq<char>, starts: Seq<usize>, offset: int) -> Position {
    let off = clamp(cs, offset);
    let line = line_index(starts, off);
    let ls = clamp(cs, line_start(starts, line as int));
    Position {
        line: line as u32,
        character: utf16_units(cs.subrange(char_index(cs, ls), char_index(cs, off))) as u32,
    }
}

/// Convert a byte offset to a 0-based LSP `Position`.
pub fn position_at_offset(source: &str, line_starts: &[usize], offset: usize) -> (p: Position)
    requires
        source.spec_bytes().len() <= usize::MAX,
        position_safe(source@, line_starts@, offset as int),
    ensures
        ascending(line_starts@) ==> p == position_of(source@, line_starts@, offset as int),
        exists|line: int|
            (line == 0 || 0 <= line < line_starts@.len()) && line_start(line_starts@, line) <= clamp(
                source@,
                offset as int,
            ) && p == line_position(source@, line_starts@, offset as int, line),
{
    proof {
        lemma_text_width_utf8(source@);
    }
    let cs = chars_of(source);
    let len = byte_length(&cs);
    let ghost old_offset = offset;
    let offset = if offset < len {
        offset
    } else {
        len
    };
    let n = count_starts(line_starts, offset);
    let line: usize = if n == 0 {
        0
    } else {
        n - 1
    };
    let start = if line < line_starts.len() {
        line_starts[line]
    } else {
        0
    };
    proof {
        assert(start == line_start(line_starts@, line as int));
        assert(offset as int == clamp(source@, old_offset as int));
        assert(start <= offset);
        if ascending(line_starts@) {
            assert(line == line_index(line_starts@, offset as int));
        }
    }
    let start = if start < len {
        start
    } else {
        len
    };
    let a = char_index_of(&cs, start);
    let b = char_index_of(&cs, offset);
    proof {
        lemma_char_index(cs@, start as int);
        lemma_char_index(cs@, offset as int);
        if line_starts@.len() > 0 && ascending(line_starts@) {
            lemma_starts_le(line_starts@, offset as int);
        }
        if a > b {
            lemma_prefix_width_strict(cs@, b as int, a as int);
        }
        lemma_width_split(cs@, a as int, b as int);
        crate::lex::lemma_text_width_prefix(cs@, b as int);
        crate::lex::lemma_text_width_nonneg(cs@.take(a as int));
    }
    let character = utf16_units_in(&cs, a, b);
    let p = Position { line: line as u32, character: character as u32 };
    assert(p == line_position(source@, line_starts@, old_offset as int, line as int));
    p
}

/// The byte length of a character sequence that fits `usize`.
fn byte_length(cs: &Vec<char>) -> (n: usize)
    requires
        text_width(cs@) <= usize::MAX,
    ensures
        n == text_width(cs@),
{
    let mut n: usize = 0;
    let mut i: usize = 0;
    assert(cs@.take(0) =~= Seq::<char>::empty());
    while i < cs.len()
        invariant
            i <= cs@.len(),
            n == text_width(cs@.take(i as int)),
            text_width(cs@) <= usize::MAX,
        decreases cs@.len() - i,
    {
        proof {
            lemma_text_width_step(cs@, i as int);
            crate::lex::lemma_text_width_prefix(cs@, i + 1);
        }
        n = n + char_width_usize(cs[i]);
        i += 1;
    }
    assert(cs@.take(i as int) =~= cs@);
    n
}

/// The UTF-16 column at which [`offset_from_position`] stops walking `text`
/// for `target` units: the first character index whose prefix holds exactly
/// `target` units, or the whole text.
pub open spec fn stop_index(text: Seq<char>, target: int, k: int) -> int
    decreases text.len() - k,
{
    if k < 0 || k >= text.len() {
        text.len() as int
    } else if utf16_units(text.take(k)) == target {
        k
    } else {
        stop_index(text, target, k + 1)
    }
}

/// When [`offset_from_position`] is defined: the line's start and end are
/// character boundaries in order.
pub open spec fn offset_ok(cs: Seq<char>, starts: Seq<usize>, pos: Position) -> bool {
    let line = pos.line as int;
    line < starts.len() ==> {
        let ls = starts[line] as int;
        let le = clamp(
            cs,
            if line + 1 < starts.len() {
                starts[line + 1int] as int
            } else {
                byte_len(cs)
            },
        );
        &&& ls <= le
        &&& is_boundary(cs, ls)
        &&& is_boundary(cs, le)
    }
}

/// The byte offset of an LSP `Position`: `None` past the last line; within
/// the line, the first character at which `character` UTF-16 units have
/// passed, or the line's end.
pub open spec fn offset_of_position(cs: Seq<char>, starts: Seq<usize>, pos: Position) -> Option<
    int,
> {
    let line = pos.line as int;
    if line >= starts.len() {
        None
    } else {
        let ls = starts[line] as int;
        let le = clamp(
            cs,
            if line + 1 < starts.len() {
                starts[line + 1int] as int
            } else {
                byte_len(cs)
            },
        );
        let text = cs.subrange(char_index(cs, ls), char_index(cs, le));
        Some(ls + text_width(text.take(stop_index(text, pos.character as int, 0))))
    }
}

/// Convert an LSP `Position` to a byte offset, if it is within `source`.
pub fn offset_from_position(source: &str, line_starts: &[usize], pos: Position) -> (r: Option<
    usize,
>)
    requires
        source.spec_bytes().len() <= usize::MAX,
        offset_ok(source@, line_starts@, pos),
    ensures
        match offset_of_position(source@, line_starts@, pos) {
            Some(o) => r == Some(o as usize),
            None => r is None,
        },
{
    let line = pos.line as usize;
    if line >= line_starts.len() {
        return None;
    }
    proof {
        lemma_text_width_utf8(source@);
    }
    let cs = chars_of(source);
    let len = byte_length(&cs);
    let ls = line_starts[line];
    let le = if line + 1 < line_starts.len() {
        line_starts[line + 1]
    } else {
        len
    };
    let le = if le < len {
        le
    } else {
        len
    };
    let a = char_index_of(&cs, ls);
    let b = char_index_of(&cs, le);
    proof {
        lemma_char_index(cs@, ls as int);
        lemma_char_index(cs@, le as int);
        if a > b {
            lemma_prefix_width_strict(cs@, b as int, a as int);
        }
        crate::lex::lemma_text_width_prefix(cs@, b as int);
    }
    let ghost text = cs@.subrange(a as int, b as int);
    proof {
        crate::lex::lemma_text_width_nonneg(cs@.take(a as int));
        assert(cs@.take(a as int) =~= cs@.take(a as int));
    }
    let target = pos.character as usize;
    let mut units: usize = 0;
    let mut byte: usize = 0;
    let mut i = a;
    assert(text.take(0) =~= Seq::<char>::empty());
    while i < b
        invariant
            a <= i <= b <= cs@.len(),
            cs@ == source@,
            line == pos.line,
            line < line_starts@.len(),
            ls == line_starts@[line as int],
            target == pos.character,
            a == char_index(cs@, ls as int),
            b == char_index(cs@, le as int),
            le == clamp(
                cs@,
                if line + 1 < line_starts@.len() {
                    line_starts@[line + 1] as int
                } else {
                    byte_len(cs@)
                },
            ),
            text == cs@.subrange(a as int, b as int),
            units == utf16_units(text.take(i - a)),
            byte == text_width(text.take(i - a)),
            ls == text_width(cs@.take(a as int)),
            text_width(cs@.take(b as int)) <= usize::MAX,
            stop_index(text, target as int, (i - a) as int) == stop_index(text, target as int, 0),
            units <= byte,
            ls + byte == text_width(cs@.take(i as int)),
        decreases b - i,
    {
        if units == target {
            proof {
                lemma_prefix_width_strict(cs@, i as int, b as int);
                assert(stop_index(text, target as int, (i - a) as int) == i - a);
            }
            return Some(ls + byte);
        }
        proof {
            assert(text.take(i - a + 1).drop_last() =~= text.take(i - a));
            lemma_text_width_step(text, i - a);
            lemma_text_width_step(cs@, i as int);
            lemma_width_one(cs@, i as int);
            assert(text[i - a] == cs@[i as int]);
            if i + 1 < b {
                lemma_prefix_width_strict(cs@, i + 1, b as int);
            }
        }
        units = units + utf16_width_of(cs[i]);
        byte = byte + char_width_usize(cs[i]);
        i += 1;
    }
    proof {
        assert(text.take(i - a) =~= text);
        lemma_width_split(cs@, a as int, b as int);
    }
    Some(ls + byte)
}

/// The bytes before `cs[..b]` split at `a`.
proof fn lemma_width_split(cs: Seq<char>, a: int, b: int)
    requires
        0 <= a <= b <= cs.len(),
    ensures
        text_width(cs.take(b)) == text_width(cs.take(a)) + text_width(cs.subrange(a, b)),
        text_width(cs.subrange(a, b).take(b - a)) == text_width(cs.subrange(a, b)),
{
    assert(cs.take(b) =~= cs.take(a) + cs.subrange(a, b));
    crate::lex::lemma_text_width_concat(cs.take(a), cs.subrange(a, b));
    assert(cs.subrange(a, b).take(b - a) =~= cs.subrange(a, b));
}

/// When [`range_from_span`] is defined: the span's offset is a boundary and
/// both range ends are positions [`position_at_offset`] accepts.
pub open spec fn span_range_ok(cs: Seq<char>, starts: Seq<usize>, span: Span) -> bool {
    let start = clamp(cs, span_offset(starts, span));
    &&& span_offset(starts, span) <= usize::MAX
    &&& is_boundary(cs, start)
    &&& position_ok(cs, starts, start)
    &&& position_ok(cs, starts, span_end(cs, start))
}

/// One character past `start` (the start itself at the end of the text).
pub open spec fn span_end(cs: Seq<char>, start: int) -> int {
    let k = char_index(cs, start);
    if k < cs.len() {
        start + char_width(cs[k])
    } else {
        start
    }
}

/// An LSP `Range` for a 1-based `(line, col)` span, expanded to one character
/// (so a diagnostic squiggle is visible).
pub fn range_from_span(source: &str, line_starts: &[usize], span: Span) -> (r: Range)
    requires
        source.spec_bytes().len() <= usize::MAX,
        span_range_ok(source@, line_starts@, span),
    ensures
        r == (Range {
            start: position_of(
                source@,
                line_starts@,
                clamp(source@, span_offset(line_starts@, span)),
            ),
            end: position_of(
                source@,
                line_starts@,
                span_end(source@, clamp(source@, span_offset(line_starts@, span))),
            ),
        }),
{
    proof {
        lemma_text_width_utf8(source@);
    }
    let cs = chars_of(source);
    let len = byte_length(&cs);
    let start = offset_of_span(line_starts, span);
    let start = if start < len {
        start
    } else {
        len
    };
    let k = char_index_of(&cs, start);
    proof {
        lemma_char_index(cs@, start as int);
        if k < cs@.len() {
            lemma_prefix_width_strict(cs@, k as int, cs@.len() as int);
            lemma_text_width_step(cs@, k as int);
            crate::lex::lemma_text_width_prefix(cs@, k + 1);
        }
    }
    let end = if k < cs.len() {
        start + char_width_usize(cs[k])
    } else {
        start
    };
    Range {
        start: position_at_offset(source, line_starts, start),
        end: position_at_offset(source, line_starts, end),
    }
}

/// An LSP `Range` for a half-open byte range in `source`.
pub fn range_from_byte_range(source: &str, line_starts: &[usize], range: (u32, u32)) -> (r: Range)
    requires
        source.spec_bytes().len() <= usize::MAX,
        position_ok(source@, line_starts@, range.0 as int),
        position_ok(source@, line_starts@, range.1 as int),
    ensures
        r == (Range {
            start: position_of(source@, line_starts@, range.0 as int),
            end: position_of(source@, line_starts@, range.1 as int),
        }),
{
    let (start, end) = (range.0 as usize, range.1 as usize);
    Range {
        start: position_at_offset(source, line_starts, start),
        end: position_at_offset(source, line_starts, end),
    }
}


// ---------------------------------------------------------------------------
// Semantic tokens
//
// The legend and the delta encoding: the list order of the legend defines the
// indices in the encoded data, so it is the single source of truth for both
// the capability advertisement and the encoder.

/// A semantic token type of the LSP.
#[allow(non_camel_case_types)]
#[derive(Clone, Copy, PartialEq, Eq, Debug, Structural)]
pub enum SemanticTokenType {
    NAMESPACE,
    TYPE,
    CLASS,
    ENUM,
    INTERFACE,
    STRUCT,
    TYPE_PARAMETER,
    PARAMETER,
    VARIABLE,
    PROPERTY,
    ENUM_MEMBER,
    EVENT,
    FUNCTION,
    METHOD,
    MACRO,
    KEYWORD,
    MODIFIER,
    COMMENT,
    STRING,
    NUMBER,
    REGEXP,
    OPERATOR,
    DECORATOR,
}

/// A semantic token modifier of the LSP.
#[allow(non_camel_case_types)]
#[derive(Clone, Copy, PartialEq, Eq, Debug, Structural)]
pub enum SemanticTokenModifier {
    DECLARATION,
    DEFINITION,
    READONLY,
    STATIC,
    DEPRECATED,
    ABSTRACT,
    ASYNC,
    MODIFICATION,
    DOCUMENTATION,
    DEFAULT_LIBRARY,
}

/// The token types and modifiers a server advertises.
pub struct SemanticTokensLegend {
    pub token_types: Vec<SemanticTokenType>,
    pub token_modifiers: Vec<SemanticTokenModifier>,
}

/// One encoded token: `[deltaLine, deltaStart, length, type, modifiers]`.
#[derive(Clone, Copy, PartialEq, Eq, Debug, Structural)]
pub struct SemanticToken {
    pub delta_line: u32,
    pub delta_start: u32,
    pub length: u32,
    pub token_type: u32,
    pub token_modifiers_bitset: u32,
}

/// The encoded tokens of a document.
pub struct SemanticTokens {
    pub result_id: Option<String>,
    pub data: Vec<SemanticToken>,
}

/// One semantic token in *source* coordinates (a half-open byte range) with
/// its legend classification, before encoding.
pub struct SemanticTokenData {
    pub start: u32,
    pub end: u32,
    pub token_type: SemanticTokenType,
    pub modifiers: Vec<SemanticTokenModifier>,
}

/// The legend's token types, in order.
pub open spec fn legend_types() -> Seq<SemanticTokenType> {
    seq![
        SemanticTokenType::TYPE,
        SemanticTokenType::VARIABLE,
        SemanticTokenType::PARAMETER,
        SemanticTokenType::FUNCTION,
        SemanticTokenType::PROPERTY,
        SemanticTokenType::KEYWORD,
        SemanticTokenType::OPERATOR,
        SemanticTokenType::NUMBER,
        SemanticTokenType::STRING,
        SemanticTokenType::COMMENT,
    ]
}

/// The legend's token modifiers, in order.
pub open spec fn legend_modifiers() -> Seq<SemanticTokenModifier> {
    seq![SemanticTokenModifier::DECLARATION]
}

/// The token types / modifiers this server emits.
pub fn semantic_token_legend() -> (l: SemanticTokensLegend)
    ensures
        l.token_types@ == legend_types(),
        l.token_modifiers@ == legend_modifiers(),
{
    let l = SemanticTokensLegend {
        token_types: vec![
            SemanticTokenType::TYPE,
            SemanticTokenType::VARIABLE,
            SemanticTokenType::PARAMETER,
            SemanticTokenType::FUNCTION,
            SemanticTokenType::PROPERTY,
            SemanticTokenType::KEYWORD,
            SemanticTokenType::OPERATOR,
            SemanticTokenType::NUMBER,
            SemanticTokenType::STRING,
            SemanticTokenType::COMMENT,
        ],
        token_modifiers: vec![SemanticTokenModifier::DECLARATION],
    };
    assert(l.token_types@ =~= legend_types());
    assert(l.token_modifiers@ =~= legend_modifiers());
    l
}

/// The index of `t` in `types`, or 0 where it is absent.
pub open spec fn type_index(types: Seq<SemanticTokenType>, t: SemanticTokenType) -> int {
    if exists|i: int| 0 <= i < types.len() && types[i] == t {
        choose|i: int|
            0 <= i < types.len() && types[i] == t && forall|j: int| 0 <= j < i ==> types[j] != t
    } else {
        0
    }
}

/// The position of `t` in the legend's type list (0 where it is absent).
fn index_of_type(legend: &SemanticTokensLegend, t: &SemanticTokenType) -> (r: u32)
    requires
        legend.token_types@.len() <= u32::MAX,
    ensures
        r == type_index(legend.token_types@, *t),
{
    let mut i: usize = 0;
    while i < legend.token_types.len()
        invariant
            i <= legend.token_types@.len() <= u32::MAX,
            forall|j: int| 0 <= j < i ==> legend.token_types@[j] != *t,
        decreases legend.token_types@.len() - i,
    {
        if legend.token_types[i] == *t {
            proof {
                let types = legend.token_types@;
                let w = choose|k: int|
                    0 <= k < types.len() && types[k] == *t && forall|j: int|
                        0 <= j < k ==> types[j] != *t;
                assert(0 <= i < types.len() && types[i as int] == *t && forall|j: int|
                    0 <= j < i ==> types[j] != *t);
                if w < i {
                } else if w > i {
                }
            }
            return i as u32;
        }
        i += 1;
    }
    0
}

/// Whether `ms` holds the legend's one modifier.
pub open spec fn modifier_bits(ms: Seq<SemanticTokenModifier>) -> u32 {
    if ms.contains(SemanticTokenModifier::DECLARATION) {
        1
    } else {
        0
    }
}

/// A saturating subtraction of `u32`s.
pub open spec fn sat_sub(a: u32, b: u32) -> u32 {
    if a >= b {
        (a - b) as u32
    } else {
        0
    }
}

/// The encoding of token `k` of `tokens`: its start's line and character as
/// deltas from the previous token's start (the first token's absolute).
pub open spec fn encoded_token(
    cs: Seq<char>,
    starts: Seq<usize>,
    tokens: Seq<SemanticTokenData>,
    k: int,
) -> SemanticToken {
    let start = position_of(cs, starts, tokens[k].start as int);
    let end = position_of(cs, starts, tokens[k].end as int);
    let prev = if k == 0 {
        Position { line: 0, character: 0 }
    } else {
        position_of(cs, starts, tokens[k - 1].start as int)
    };
    let delta_line = (start.line - prev.line) as u32;
    SemanticToken {
        delta_line,
        delta_start: if delta_line == 0 {
            sat_sub(start.character, prev.character)
        } else {
            start.character
        },
        length: sat_sub(end.character, start.character),
        token_type: type_index(legend_types(), tokens[k].token_type) as u32,
        token_modifiers_bitset: modifier_bits(tokens[k].modifiers@),
    }
}

/// When [`encode_semantic_tokens`] is defined: every token's ends are
/// positions [`position_at_offset`] accepts, and the tokens come in document
/// order (their start lines never decrease).
pub open spec fn tokens_ok(cs: Seq<char>, starts: Seq<usize>, tokens: Seq<SemanticTokenData>) -> bool {
    &&& forall|k: int|
        0 <= k < tokens.len() ==> position_ok(cs, starts, #[trigger] tokens[k].start as int)
            && position_ok(cs, starts, tokens[k].end as int)
    &&& forall|k: int|
        0 < k < tokens.len() ==> position_of(cs, starts, tokens[k - 1].start as int).line
            <= position_of(cs, starts, #[trigger] tokens[k].start as int).line
}

/// The legend's modifier bits of `ms`.
fn modifiers_bitset(legend: &SemanticTokensLegend, ms: &Vec<SemanticTokenModifier>) -> (r: u32)
    requires
        legend.token_modifiers@ == legend_modifiers(),
    ensures
        r == modifier_bits(ms@),
{
    let mut bits: u32 = 0;
    let mut k: usize = 0;
    while k < ms.len()
        invariant
            k <= ms@.len(),
            legend.token_modifiers@ == legend_modifiers(),
            bits == modifier_bits(ms@.take(k as int)),
        decreases ms@.len() - k,
    {
        let m = ms[k];
        let mut i: usize = 0;
        while i < legend.token_modifiers.len()
            invariant
                i <= legend.token_modifiers@.len(),
                legend.token_modifiers@ == legend_modifiers(),
                k < ms@.len(),
                m == ms@[k as int],
                i == 1 && m == SemanticTokenModifier::DECLARATION ==> bits == 1,
                bits == 1 ==> ms@.take(k as int + 1).contains(SemanticTokenModifier::DECLARATION),
                bits == 0 || bits == 1,
                i == 0 ==> bits == modifier_bits(ms@.take(k as int)),
                m != SemanticTokenModifier::DECLARATION ==> bits == modifier_bits(ms@.take(k as int)),
            decreases legend.token_modifiers@.len() - i,
        {
            if legend.token_modifiers[i] == m {
                proof {
                    assert(ms@.take(k as int + 1)[k as int] == m);
                }
                let shifted: u32 = 1u32 << (i as u32);
                assert(shifted == 1) by (bit_vector)
                    requires
                        shifted == 1u32 << (0u32),
                ;
                assert((bits | 1u32) == 1u32) by (bit_vector)
                    requires
                        bits == 0u32 || bits == 1u32,
                ;
                bits = bits | shifted;
            }
            i += 1;
        }
        proof {
            let prev = ms@.take(k as int);
            let next = ms@.take(k as int + 1);
            assert(next =~= prev.push(m));
            if prev.contains(SemanticTokenModifier::DECLARATION) {
                let j = choose|j: int| 0 <= j < prev.len() && prev[j] == SemanticTokenModifier::DECLARATION;
                assert(next[j] == SemanticTokenModifier::DECLARATION);
            }
            if next.contains(SemanticTokenModifier::DECLARATION) && m != SemanticTokenModifier::DECLARATION {
                let j = choose|j: int| 0 <= j < next.len() && next[j] == SemanticTokenModifier::DECLARATION;
                assert(prev[j] == SemanticTokenModifier::DECLARATION);
            }
            if m == SemanticTokenModifier::DECLARATION {
                assert(next[k as int] == m);
            }
        }
        k += 1;
    }
    assert(ms@.take(k as int) =~= ms@);
    bits
}

/// Delta-encode `tokens` (already in document order) into LSP
/// `SemanticTokens`.  The first token's line/start are absolute; each later
/// token's are deltas from the previous one (a `delta_start` only when on the
/// same line).  Lengths and the inner `delta_start` are in UTF-16 code units.
pub fn encode_semantic_tokens(
    source: &str,
    line_starts: &[usize],
    tokens: &[SemanticTokenData],
) -> (r: SemanticTokens)
    requires
        source.spec_bytes().len() <= usize::MAX,
        tokens_ok(source@, line_starts@, tokens@),
    ensures
        r.result_id is None,
        r.data@.len() == tokens@.len(),
        forall|k: int|
            0 <= k < tokens@.len() ==> #[trigger] r.data@[k] == encoded_token(
                source@,
                line_starts@,
                tokens@,
                k,
            ),
{
    let legend = semantic_token_legend();
    let mut data: Vec<SemanticToken> = Vec::new();
    let mut prev_line: u32 = 0;
    let mut prev_start: u32 = 0;
    let mut k: usize = 0;
    while k < tokens.len()
        invariant
            k <= tokens@.len(),
            data@.len() == k,
            source.spec_bytes().len() <= usize::MAX,
            tokens_ok(source@, line_starts@, tokens@),
            legend.token_types@ == legend_types(),
            legend.token_modifiers@ == legend_modifiers(),
            k == 0 ==> prev_line == 0 && prev_start == 0,
            k > 0 ==> (Position { line: prev_line, character: prev_start }) == position_of(
                source@,
                line_starts@,
                tokens@[k - 1].start as int,
            ),
            forall|j: int|
                0 <= j < k ==> #[trigger] data@[j] == encoded_token(
                    source@,
                    line_starts@,
                    tokens@,
                    j,
                ),
        decreases tokens@.len() - k,
    {
        let t = &tokens[k];
        assert(position_ok(source@, line_starts@, tokens@[k as int].start as int));
        let start = position_at_offset(source, line_starts, t.start as usize);
        let end = position_at_offset(source, line_starts, t.end as usize);
        let delta_line = start.line - prev_line;
        let delta_start = if delta_line == 0 {
            start.character.saturating_sub(prev_start)
        } else {
            start.character
        };
        let length = end.character.saturating_sub(start.character);
        let token_type = index_of_type(&legend, &t.token_type);
        let token_modifiers_bitset = modifiers_bitset(&legend, &t.modifiers);
        data.push(
            SemanticToken { delta_line, delta_start, length, token_type, token_modifiers_bitset },
        );
        prev_line = start.line;
        prev_start = start.character;
        k += 1;
    }
    SemanticTokens { result_id: None, data }
}


// ---------------------------------------------------------------------------
// Round trips

/// The starts counted for `off` are exactly the leading ones at or before it.
proof fn lemma_count_split(starts: Seq<usize>, off: int)
    requires
        ascending(starts),
    ensures
        starts_at_or_before(starts, off) <= starts.len(),
        forall|i: int| 0 <= i < starts_at_or_before(starts, off) ==> starts[i] <= off,
        starts_at_or_before(starts, off) < starts.len() ==> starts[starts_at_or_before(
            starts,
            off,
        ) as int] > off,
    decreases starts.len(),
{
    if starts.len() > 0 && starts[0] <= off {
        let rest = starts.drop_first();
        assert(ascending(rest)) by {
            assert forall|i: int, j: int| 0 <= i < j < rest.len() implies rest[i] < rest[j] by {
                assert(rest[i] == starts[i + 1] && rest[j] == starts[j + 1]);
            }
        }
        lemma_count_split(rest, off);
        let n = starts_at_or_before(starts, off);
        assert forall|i: int| 0 <= i < n implies starts[i] <= off by {
            if i > 0 {
                assert(starts[i] == rest[i - 1]);
            }
        }
        if n < starts.len() {
            assert(starts[n as int] == rest[n - 1]);
        }
    }
}

/// Reading back the span of an offset gives the offset: [`span_of_offset`]
/// reverses [`offset_of_span`] for every offset at or after the first line's
/// start, while the span's numbers fit.
pub proof fn law_span_round_trip(starts: Seq<usize>, off: int)
    requires
        ascending(starts),
        starts.len() > 0,
        starts[0] <= off,
        starts.len() < u32::MAX,
        off - starts[line_index(starts, off) as int] + 1 <= u32::MAX,
    ensures
        span_offset(starts, span_at(starts, off)) == off,
{
    lemma_starts_le(starts, off);
}

/// A prefix of more characters holds more UTF-16 code units.
proof fn lemma_units_strict(s: Seq<char>, j: int, k: int)
    requires
        0 <= j < k <= s.len(),
    ensures
        utf16_units(s.take(j)) < utf16_units(s.take(k)),
    decreases k - j,
{
    assert(s.take(k).drop_last() =~= s.take(k - 1));
    if j < k - 1 {
        lemma_units_strict(s, j, k - 1);
    }
}

/// A text holds no more UTF-16 code units than UTF-8 bytes.
proof fn lemma_units_le_width(s: Seq<char>)
    ensures
        utf16_units(s) <= text_width(s),
    decreases s.len(),
{
    if s.len() > 0 {
        lemma_units_le_width(s.drop_last());
        assert(s.take(s.len() as int) =~= s);
        assert(s.take(s.len() - 1) =~= s.drop_last());
        lemma_text_width_step(s, s.len() - 1);
    }
}

/// Walking for the units of the first `k` characters stops after exactly
/// those characters.
proof fn lemma_stop_at(text: Seq<char>, k: int, j: int)
    requires
        0 <= j <= k <= text.len(),
    ensures
        stop_index(text, utf16_units(text.take(k)) as int, j) == k,
    decreases k - j,
{
    if j < k {
        lemma_units_strict(text, j, k);
        lemma_stop_at(text, k, j + 1);
    }
}

/// When the line table is one of `cs` (ascending boundaries within it), and
/// `off` is a boundary at or after the first line's start: the position of
/// `off` is one [`offset_from_position`] accepts.
pub open spec fn table_ok(cs: Seq<char>, starts: Seq<usize>) -> bool {
    &&& ascending(starts)
    &&& starts.len() > 0
    &&& starts.len() <= u32::MAX
    &&& byte_len(cs) <= u32::MAX
    &&& forall|i: int|
        0 <= i < starts.len() ==> starts[i] <= byte_len(cs) && is_boundary(cs, #[trigger] starts[i] as int)
}

/// Reading back the LSP position of a byte offset gives the offset:
/// [`offset_from_position`] reverses [`position_at_offset`] at every
/// character boundary of the source from the first line's start on.
pub proof fn law_position_round_trip(cs: Seq<char>, starts: Seq<usize>, off: int)
    requires
        table_ok(cs, starts),
        starts[0] <= off <= byte_len(cs),
        is_boundary(cs, off),
    ensures
        position_ok(cs, starts, off),
        offset_ok(cs, starts, position_of(cs, starts, off)),
        offset_of_position(cs, starts, position_of(cs, starts, off)) == Some(off),
{
    lemma_starts_le(starts, off);
    lemma_count_split(starts, off);
    let n = starts_at_or_before(starts, off);
    let line = line_index(starts, off);
    assert(line == n - 1);
    let ls = starts[line as int] as int;
    assert(is_boundary(cs, ls));
    assert(clamp(cs, off) == off);
    assert(clamp(cs, ls) == ls);
    lemma_char_index(cs, ls);
    lemma_char_index(cs, off);
    let a = char_index(cs, ls);
    let ko = char_index(cs, off);
    if ko < a {
        lemma_prefix_width_strict(cs, ko, a);
    }
    let le_raw = if line + 1 < starts.len() {
        starts[line + 1int] as int
    } else {
        byte_len(cs)
    };
    let le = clamp(cs, le_raw);
    assert(le == le_raw);
    assert(is_boundary(cs, le)) by {
        if line + 1 >= starts.len() {
            assert(cs.take(cs.len() as int) =~= cs);
        } else {
            assert(is_boundary(cs, starts[line + 1int] as int));
        }
    }
    lemma_char_index(cs, le);
    let b = char_index(cs, le);
    if b < ko {
        lemma_prefix_width_strict(cs, b, ko);
    }
    lemma_width_split(cs, a, ko);
    lemma_units_le_width(cs.subrange(a, ko));
    crate::lex::lemma_text_width_nonneg(cs.take(a));
    crate::lex::lemma_text_width_prefix(cs, ko);
    let pos = position_of(cs, starts, off);
    assert(pos.line == line);
    assert(pos.character == utf16_units(cs.subrange(a, ko)));
    let text = cs.subrange(a, b);
    assert(text.take(ko - a) =~= cs.subrange(a, ko));
    lemma_stop_at(text, ko - a, 0);
}


/// The newline ends of `cs` ascend, are boundaries, and lie in `(0, len]`.
proof fn lemma_line_ends(cs: Seq<char>)
    requires
        text_width(cs) <= usize::MAX,
    ensures
        ascending(line_ends(cs)),
        line_ends(cs).len() <= cs.len(),
        forall|j: int|
            0 <= j < line_ends(cs).len() ==> 0 < #[trigger] line_ends(cs)[j] <= text_width(cs)
                && is_boundary(cs, line_ends(cs)[j] as int),
    decreases cs.len(),
{
    if cs.len() > 0 {
        let init = cs.drop_last();
        assert(cs.take(cs.len() - 1) =~= init);
        assert(cs.take(cs.len() as int) =~= cs);
        lemma_text_width_step(cs, cs.len() - 1);
        crate::lex::lemma_char_width_bounds(cs.last());
        lemma_line_ends(init);
        let prev = line_ends(init);
        assert forall|j: int| 0 <= j < prev.len() implies is_boundary(cs, #[trigger] prev[j] as int) by {
            let k = choose|k: int| 0 <= k <= init.len() && text_width(init.take(k)) == prev[j];
            assert(init.take(k) =~= cs.take(k));
        }
        if cs.last() == '\n' {
            crate::lex::lemma_text_width_nonneg(cs);
            let e = text_width(cs) as usize;
            assert(text_width(cs.take(cs.len() as int)) == e as int);
            assert(is_boundary(cs, e as int));
            assert(line_ends(cs) == prev.push(e));
            assert forall|j: int| 0 <= j < line_ends(cs).len() implies 0 < #[trigger] line_ends(cs)[j]
                <= text_width(cs) && is_boundary(cs, line_ends(cs)[j] as int) by {
                if j < prev.len() {
                    assert(line_ends(cs)[j] == prev[j]);
                    assert(0 < line_ends(init)[j] <= text_width(init));
                    assert(is_boundary(cs, prev[j] as int));
                } else {
                    crate::lex::lemma_text_width_nonneg(init);
                    assert(line_ends(cs)[j] == e);
                    assert(0 < e);
                    assert(e <= text_width(cs));
                    assert(is_boundary(cs, e as int));
                }
            }
        }
    }
}

/// A text has no more characters than bytes.
proof fn lemma_len_le_width(cs: Seq<char>)
    ensures
        cs.len() <= text_width(cs),
    decreases cs.len(),
{
    if cs.len() > 0 {
        lemma_len_le_width(cs.drop_first());
        crate::lex::lemma_char_width_bounds(cs[0]);
    }
}

/// The line table of a source is a table [`law_position_round_trip`] speaks
/// of, with its first line at offset 0.
pub proof fn law_line_table_ok(cs: Seq<char>)
    requires
        text_width(cs) < u32::MAX,
    ensures
        table_ok(cs, line_table(cs)),
        line_table(cs)[0] == 0,
{
    lemma_line_ends(cs);
    lemma_len_le_width(cs);
    crate::lex::lemma_text_width_nonneg(cs);
    let t = line_table(cs);
    let e = line_ends(cs);
    assert(t[0] == 0);
    assert(is_boundary(cs, 0)) by {
        assert(cs.take(0) =~= Seq::<char>::empty());
    }
    assert forall|i: int| 0 <= i < t.len() implies t[i] <= byte_len(cs) && is_boundary(
        cs,
        #[trigger] t[i] as int,
    ) by {
        if i > 0 {
            assert(t[i] == e[i - 1]);
        }
    }
    assert forall|i: int, j: int| 0 <= i < j < t.len() implies t[i] < t[j] by {
        assert(t[j] == e[j - 1]);
        if i > 0 {
            assert(t[i] == e[i - 1]);
        }
    }
}

} // verus!
