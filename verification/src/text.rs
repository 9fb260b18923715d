//! Byte-level line structure of a text.
//!
//! A line starts right after a newline byte (or at offset 0) and runs up to
//! and including the next newline byte, or to the end of the data when no
//! newline follows.  Only the ASCII byte `\n` (10) terminates a line.

use vstd::prelude::*;

verus! {

/// The newline byte that terminates a line.
pub open spec fn is_newline(b: u8) -> bool {
    b == 10
}

/// Number of bytes in the line that starts at `pos`: everything up to and
/// including the next newline byte, or up to the end of the data when no
/// newline follows.
pub open spec fn line_len(data: Seq<u8>, pos: int) -> nat
    decreases data.len() - pos,
{
    if pos < 0 || pos >= data.len() {
        0
    } else if is_newline(data[pos]) {
        1
    } else {
        1 + line_len(data, pos + 1)
    }
}

/// Offset one past the last byte of the line that starts at `pos`.
pub open spec fn line_end(data: Seq<u8>, pos: int) -> int {
    pos + line_len(data, pos)
}

/// A position where a chunk may begin or end without splitting a line:
/// the start of the data, its end, or a position right after a newline.
pub open spec fn is_line_boundary(data: Seq<u8>, p: int) -> bool {
    p == 0 || p == data.len() || (0 < p < data.len() && is_newline(data[p - 1]))
}

pub proof fn lemma_line_end_bounds(data: Seq<u8>, pos: int)
    requires
        0 <= pos < data.len(),
    ensures
        pos < line_end(data, pos) <= data.len(),
    decreases data.len() - pos,
{
    reveal_with_fuel(line_len, 2);
    if !is_newline(data[pos]) && pos + 1 < data.len() {
        lemma_line_end_bounds(data, pos + 1);
    }
}

/// The line that starts at `pos` ends with a newline byte unless it runs to
/// the end of the data.
pub proof fn lemma_line_end_terminator(data: Seq<u8>, pos: int)
    requires
        0 <= pos < data.len(),
    ensures
        line_end(data, pos) == data.len() || is_newline(data[line_end(data, pos) - 1]),
    decreases data.len() - pos,
{
    reveal_with_fuel(line_len, 2);
    if !is_newline(data[pos]) && pos + 1 < data.len() {
        lemma_line_end_terminator(data, pos + 1);
    }
}

/// A line never runs past a line boundary that lies ahead of its start.
pub proof fn lemma_line_end_within(data: Seq<u8>, pos: int, e: int)
    requires
        0 <= pos < e <= data.len(),
        e == data.len() || is_newline(data[e - 1]),
    ensures
        line_end(data, pos) <= e,
    decreases data.len() - pos,
{
    if !is_newline(data[pos]) {
        if pos + 1 == e {
            // then data[e - 1] == data[pos] is not a newline, so e == data.len()
            // and the line runs at most to the end of the data
            lemma_line_end_bounds(data, pos);
        } else {
            lemma_line_end_within(data, pos + 1, e);
        }
    }
}

/// Finds the end of the line that starts at `from`: one past the next
/// newline at or after `from`, or the end of the data.
pub fn scan_line_end(data: &Vec<u8>, from: usize) -> (e: usize)
    requires
        from <= data@.len(),
    ensures
        e as int == line_end(data@, from as int),
        from <= e <= data@.len(),
{
    let n = data.len();
    let mut i = from;
    while i < n
        invariant
            from <= i <= n,
            n == data@.len(),
            line_end(data@, from as int) == line_end(data@, i as int),
            forall|j: int| from <= j < i ==> !is_newline(data@[j]),
        decreases n - i,
    {
        if data[i] == 10u8 {
            proof {
                assert(line_end(data@, i as int) == i + 1);
            }
            return i + 1;
        }
        i = i + 1;
    }
    proof {
        assert(line_end(data@, i as int) == i);
    }
    i
}

/// The successive raw lines of `data` from `pos` to the end, each including
/// its terminating newline byte when it has one.
pub open spec fn raw_lines_from(data: Seq<u8>, pos: int) -> Seq<Seq<u8>>
    decreases data.len() - pos,
    via raw_lines_from_decreases
{
    if pos < 0 || pos >= data.len() {
        Seq::empty()
    } else {
        seq![data.subrange(pos, line_end(data, pos))] + raw_lines_from(data, line_end(data, pos))
    }
}

#[via_fn]
proof fn raw_lines_from_decreases(data: Seq<u8>, pos: int) {
    if 0 <= pos < data.len() {
        lemma_line_end_bounds(data, pos);
    }
}

/// All raw lines of `data`, in order.
pub open spec fn lines_of(data: Seq<u8>) -> Seq<Seq<u8>> {
    raw_lines_from(data, 0)
}

/// The raw lines that start at or after `pos` and before `e`.  When `e` is a
/// line boundary these lines lie entirely within `[pos, e)`.
pub open spec fn lines_between(data: Seq<u8>, pos: int, e: int) -> Seq<Seq<u8>>
    decreases data.len() - pos,
    via lines_between_decreases
{
    if pos < 0 || pos >= e || e > data.len() {
        Seq::empty()
    } else {
        seq![data.subrange(pos, line_end(data, pos))] + lines_between(
            data,
            line_end(data, pos),
            e,
        )
    }
}

#[via_fn]
proof fn lines_between_decreases(data: Seq<u8>, pos: int, e: int) {
    if 0 <= pos < e <= data.len() {
        lemma_line_end_bounds(data, pos);
    }
}

/// Total number of bytes in a sequence of raw lines.
pub open spec fn byte_sum(raws: Seq<Seq<u8>>) -> nat
    decreases raws.len(),
{
    if raws.len() == 0 {
        0
    } else {
        raws[0].len() + byte_sum(raws.drop_first())
    }
}

/// Cutting the tail off at a line boundary splits the line sequence cleanly.
pub proof fn lemma_lines_split(data: Seq<u8>, pos: int, e: int)
    requires
        0 <= pos <= e <= data.len(),
        is_line_boundary(data, e),
    ensures
        raw_lines_from(data, pos) == lines_between(data, pos, e) + raw_lines_from(data, e),
    decreases e - pos,
{
    if pos >= e {
        assert(lines_between(data, pos, e) + raw_lines_from(data, e) =~= raw_lines_from(
            data,
            e,
        ));
    } else {
        let le = line_end(data, pos);
        lemma_line_end_within(data, pos, e);
        lemma_line_end_bounds(data, pos);
        lemma_lines_split(data, le, e);
        assert(raw_lines_from(data, pos) =~= lines_between(data, pos, e) + raw_lines_from(
            data,
            e,
        ));
    }
}

/// A middle line boundary splits the lines of a range in two.
pub proof fn lemma_lines_between_split(data: Seq<u8>, a: int, b: int, c: int)
    requires
        0 <= a <= b <= c <= data.len(),
        is_line_boundary(data, b),
    ensures
        lines_between(data, a, c) == lines_between(data, a, b) + lines_between(data, b, c),
    decreases data.len() - a,
{
    if a >= b {
        assert(lines_between(data, a, b) =~= Seq::<Seq<u8>>::empty());
        assert(lines_between(data, a, b) + lines_between(data, b, c) =~= lines_between(
            data,
            b,
            c,
        ));
    } else {
        let le = line_end(data, a);
        lemma_line_end_bounds(data, a);
        lemma_line_end_within(data, a, b);
        lemma_lines_between_split(data, le, b, c);
        assert(lines_between(data, a, c) =~= lines_between(data, a, b) + lines_between(
            data,
            b,
            c,
        ));
    }
}

/// The raw lines between two line boundaries hold exactly the bytes between
/// them.
pub proof fn lemma_lines_between_bytes(data: Seq<u8>, pos: int, e: int)
    requires
        0 <= pos <= e <= data.len(),
        is_line_boundary(data, e),
    ensures
        byte_sum(lines_between(data, pos, e)) == e - pos,
    decreases e - pos,
{
    if pos < e {
        let le = line_end(data, pos);
        lemma_line_end_within(data, pos, e);
        lemma_line_end_bounds(data, pos);
        lemma_lines_between_bytes(data, le, e);
        assert(lines_between(data, pos, e).drop_first() =~= lines_between(data, le, e));
    }
}

} // verus!
