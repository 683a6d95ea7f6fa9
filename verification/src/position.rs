//! Conversion between a flat character offset into the whole document and a
//! (line, column) position, in both directions, with proofs that the two
//! are exact inverses on valid inputs.
//!
//! A flat offset counts characters across the document, one separator
//! character per line boundary. Offset `o` is valid when
//! `0 <= o <= total_len`; position `(l, c)` is valid when `l` indexes a line
//! and `c <=` that line's length.

use vstd::prelude::*;

use crate::buffer::{
    TextBuffer, flat_of, lemma_lines_flat_roundtrip, lemma_lines_of_wf, lines_of,
};

verus! {

/// Total character count of a document: line lengths plus one separator per
/// line boundary.
pub open spec fn total_len(lines: Seq<Seq<char>>) -> int
    decreases lines.len(),
{
    if lines.len() == 0 {
        0
    } else if lines.len() == 1 {
        lines[0].len() as int
    } else {
        lines[0].len() + 1 + total_len(lines.drop_first())
    }
}

/// A position is valid when its line exists and its column is at most that
/// line's length (a column equal to the length addresses the line's end).
pub open spec fn valid_pos(lines: Seq<Seq<char>>, line: int, col: int) -> bool {
    &&& 0 <= line < lines.len()
    &&& 0 <= col <= lines[line].len()
}

/// The flat offset of position (line, col): the lengths of all prior lines,
/// one separator each, plus the column.
pub open spec fn pos_to_off(lines: Seq<Seq<char>>, line: int, col: int) -> int
    decreases line,
{
    if line <= 0 {
        col
    } else {
        lines[0].len() + 1 + pos_to_off(lines.drop_first(), line - 1, col)
    }
}

/// The position addressed by a flat offset, walking line boundaries.
/// An offset exactly at a line's end resolves to that line, never to the
/// start of the next one. `None` exactly when the offset is out of range.
pub open spec fn off_to_pos(lines: Seq<Seq<char>>, off: int) -> Option<(int, int)>
    decreases lines.len(),
{
    if lines.len() == 0 || off < 0 {
        None
    } else if off <= lines[0].len() {
        Some((0int, off))
    } else {
        match off_to_pos(lines.drop_first(), off - lines[0].len() - 1) {
            Some((l, c)) => Some((l + 1, c)),
            None => None,
        }
    }
}

/// The total length is never negative.
pub proof fn lemma_total_len_nonneg(lines: Seq<Seq<char>>)
    ensures
        total_len(lines) >= 0,
    decreases lines.len(),
{
    if lines.len() > 1 {
        lemma_total_len_nonneg(lines.drop_first());
    }
}

/// Round trip, position first: mapping a valid position to its flat offset
/// and back yields the same position, and the offset is in range.
pub proof fn lemma_pos_off_roundtrip(lines: Seq<Seq<char>>, line: int, col: int)
    requires
        valid_pos(lines, line, col),
    ensures
        0 <= pos_to_off(lines, line, col) <= total_len(lines),
        off_to_pos(lines, pos_to_off(lines, line, col)) == Some((line, col)),
    decreases line,
{
    if line <= 0 {
        if lines.len() > 1 {
            lemma_total_len_nonneg(lines.drop_first());
        }
    } else {
        let rest = lines.drop_first();
        assert(rest[line - 1] == lines[line]);
        lemma_pos_off_roundtrip(rest, line - 1, col);
    }
}

/// Round trip, offset first: every in-range offset resolves to a valid
/// position whose flat offset is the original offset.
pub proof fn lemma_off_pos_roundtrip(lines: Seq<Seq<char>>, off: int)
    requires
        lines.len() >= 1,
        0 <= off <= total_len(lines),
    ensures
        off_to_pos(lines, off) matches Some(p) && valid_pos(lines, p.0, p.1)
            && pos_to_off(lines, p.0, p.1) == off,
    decreases lines.len(),
{
    if off <= lines[0].len() {
        // resolves within the first line
    } else {
        let rest = lines.drop_first();
        assert(lines.len() >= 2);
        lemma_off_pos_roundtrip(rest, off - lines[0].len() - 1);
        let p = off_to_pos(rest, off - lines[0].len() - 1).unwrap();
        assert(lines[p.0 + 1] == rest[p.0]);
    }
}

/// A resolved offset is always a valid position.
pub proof fn lemma_off_to_pos_valid(lines: Seq<Seq<char>>, off: int)
    requires
        off_to_pos(lines, off) is Some,
    ensures
        off_to_pos(lines, off) matches Some(p) && valid_pos(lines, p.0, p.1),
    decreases lines.len(),
{
    if lines.len() == 0 || off < 0 {
    } else if off <= lines[0].len() {
    } else {
        lemma_off_to_pos_valid(lines.drop_first(), off - lines[0].len() - 1);
        let p = off_to_pos(lines.drop_first(), off - lines[0].len() - 1).unwrap();
        assert(lines[p.0 + 1] == lines.drop_first()[p.0]);
    }
}

/// An offset beyond the total length resolves to no position.
pub proof fn lemma_off_out_of_range(lines: Seq<Seq<char>>, off: int)
    requires
        off > total_len(lines),
    ensures
        off_to_pos(lines, off) is None,
    decreases lines.len(),
{
    if lines.len() == 0 {
        // off_to_pos is None outright
    } else if lines.len() == 1 {
        assert(off > lines[0].len());
        assert(lines.drop_first().len() == 0);
        assert(off_to_pos(lines.drop_first(), off - lines[0].len() - 1) is None);
    } else {
        lemma_total_len_nonneg(lines.drop_first());
        lemma_off_out_of_range(lines.drop_first(), off - lines[0].len() - 1);
    }
}

/// The offset of a line start reads only the lines before it: documents
/// that agree on those lines place the line start at the same offset.
pub proof fn lemma_pos_to_off_prefix(lines: Seq<Seq<char>>, other: Seq<Seq<char>>, line: int)
    requires
        0 <= line <= lines.len(),
        line <= other.len(),
        forall|k: int| 0 <= k < line ==> lines[k] == other[k],
    ensures
        pos_to_off(lines, line, 0) == pos_to_off(other, line, 0),
    decreases line,
{
    if line > 0 {
        assert(lines[0] == other[0]);
        assert forall|k: int| 0 <= k < line - 1 implies lines.drop_first()[k]
            == other.drop_first()[k] by {
            assert(lines.drop_first()[k] == lines[k + 1]);
            assert(other.drop_first()[k] == other[k + 1]);
        }
        lemma_pos_to_off_prefix(lines.drop_first(), other.drop_first(), line - 1);
    }
}

/// Offsets are linear in the column within one line.
pub proof fn lemma_pos_to_off_col(lines: Seq<Seq<char>>, line: int, col: int)
    requires
        0 <= line,
        0 <= col,
    ensures
        pos_to_off(lines, line, col) == pos_to_off(lines, line, 0) + col,
    decreases line,
{
    if line > 0 {
        lemma_pos_to_off_col(lines.drop_first(), line - 1, col);
    }
}

/// Stepping the line index adds the previous line's length plus the
/// separator to the offset of the line start.
pub proof fn lemma_pos_to_off_line_step(lines: Seq<Seq<char>>, line: int)
    requires
        0 <= line < lines.len(),
    ensures
        pos_to_off(lines, line + 1, 0) == pos_to_off(lines, line, 0) + lines[line].len() + 1,
    decreases line,
{
    let rest = lines.drop_first();
    assert(pos_to_off(lines, line + 1, 0) == lines[0].len() + 1 + pos_to_off(rest, line, 0));
    if line > 0 {
        assert(rest[line - 1] == lines[line]);
        assert(pos_to_off(lines, line, 0) == lines[0].len() + 1 + pos_to_off(rest, line - 1, 0));
        lemma_pos_to_off_line_step(rest, line - 1);
    }
}

/// Flat offset of a (line, column) position: the sum of `length + 1` over
/// all prior lines, plus the column. `None` only when the sum does not fit
/// in `usize`.
pub fn position_to_offset(doc: &TextBuffer, line: usize, col: usize) -> (r: Option<usize>)
    requires
        doc.wf(),
        valid_pos(doc@, line as int, col as int),
    ensures
        r matches Some(n) ==> n == pos_to_off(doc@, line as int, col as int),
        r is None ==> pos_to_off(doc@, line as int, col as int) > usize::MAX,
{
    let mut acc: usize = 0;
    let mut k: usize = 0;
    while k < line
        invariant
            doc.wf(),
            valid_pos(doc@, line as int, col as int),
            0 <= k <= line,
            acc == pos_to_off(doc@, k as int, 0),
        decreases line - k,
    {
        let len_k = doc.line_len(k);
        proof {
            lemma_pos_to_off_line_step(doc@, k as int);
            lemma_pos_to_off_col(doc@, line as int, col as int);
            lemma_pos_off_mono(doc@, k as int + 1, line as int);
        }
        if len_k >= usize::MAX - acc {
            // the offset of the next line start already exceeds usize
            return None;
        }
        acc = acc + len_k + 1;
        k = k + 1;
    }
    proof {
        lemma_pos_to_off_col(doc@, line as int, col as int);
    }
    acc.checked_add(col)
}

/// Line starts move forward: a later line starts at a larger offset.
proof fn lemma_pos_off_mono(lines: Seq<Seq<char>>, a: int, b: int)
    requires
        0 <= a <= b,
    ensures
        pos_to_off(lines, a, 0) <= pos_to_off(lines, b, 0),
    decreases b - a,
{
    if a < b {
        lemma_pos_off_mono(lines, a, b - 1);
        if b - 1 < lines.len() {
            lemma_pos_to_off_line_step(lines, b - 1);
        } else {
            lemma_pos_to_off_oob_step(lines, b - 1);
        }
    }
}

/// Past the last line the recursion still adds a nonnegative amount.
proof fn lemma_pos_to_off_oob_step(lines: Seq<Seq<char>>, line: int)
    requires
        0 <= line,
    ensures
        pos_to_off(lines, line + 1, 0) >= pos_to_off(lines, line, 0),
    decreases line,
{
    let rest = lines.drop_first();
    assert(pos_to_off(lines, line + 1, 0) == lines[0].len() + 1 + pos_to_off(rest, line, 0));
    if line > 0 {
        assert(pos_to_off(lines, line, 0) == lines[0].len() + 1 + pos_to_off(rest, line - 1, 0));
        lemma_pos_to_off_oob_step(rest, line - 1);
    }
}

/// The line a flat offset into a whole text falls on: the number of line
/// breaks before it.
pub open spec fn line_index_at(s: Seq<char>, off: int) -> int
    decreases off,
{
    if off <= 0 {
        0
    } else {
        line_index_at(s, off - 1) + if s[off - 1] == '\n' {
            1int
        } else {
            0int
        }
    }
}

/// The column a flat offset into a whole text falls on: the characters
/// since the line break before it.
pub open spec fn column_at(s: Seq<char>, off: int) -> int
    decreases off,
{
    if off <= 0 {
        0
    } else if s[off - 1] == '\n' {
        0
    } else {
        column_at(s, off - 1) + 1
    }
}

/// The (line, column) position of a flat character offset into a whole
/// text, or `None` when the offset lies past the end.
pub fn index_to_line_column(s: &str, index: usize) -> (r: Option<(usize, usize)>)
    ensures
        index <= s@.len() ==> (r matches Some(p) && p.0 == line_index_at(s@, index as int) && p.1
            == column_at(s@, index as int)),
        index > s@.len() ==> r is None,
{
    let n = s.unicode_len();
    if index > n {
        return None;
    }
    let mut line: usize = 0;
    let mut col: usize = 0;
    let mut i: usize = 0;
    while i < index
        invariant
            i <= index <= n,
            n == s@.len(),
            line == line_index_at(s@, i as int),
            col == column_at(s@, i as int),
            line <= i,
            col <= i,
        decreases index - i,
    {
        if s.get_char(i) == '\n' {
            line = line + 1;
            col = 0;
        } else {
            col = col + 1;
        }
        i = i + 1;
    }
    Some((line, col))
}

/// What the joined text holds at the flat offset of a valid position: the
/// addressed character, the separator at a line's end, or the text's end
/// after the last line.
proof fn lemma_flat_char_at(lines: Seq<Seq<char>>, l: int, c: int)
    requires
        lines.len() >= 1,
        valid_pos(lines, l, c),
    ensures
        c < lines[l].len() ==> pos_to_off(lines, l, c) < flat_of(lines).len() && flat_of(
            lines,
        )[pos_to_off(lines, l, c)] == lines[l][c],
        c == lines[l].len() && l < lines.len() - 1 ==> pos_to_off(lines, l, c) < flat_of(
            lines,
        ).len() && flat_of(lines)[pos_to_off(lines, l, c)] == '\n',
        c == lines[l].len() && l == lines.len() - 1 ==> pos_to_off(lines, l, c) == flat_of(
            lines,
        ).len(),
    decreases l,
{
    if l == 0 {
        if lines.len() == 1 {
            assert(flat_of(lines) == lines[0]);
        } else {
            assert(flat_of(lines) == lines[0] + seq!['\n'] + flat_of(lines.drop_first()));
        }
    } else {
        let rest = lines.drop_first();
        assert(rest[l - 1] == lines[l]);
        lemma_flat_char_at(rest, l - 1, c);
        assert(flat_of(lines) == lines[0] + seq!['\n'] + flat_of(rest));
        assert(pos_to_off(lines, l, c) == lines[0].len() + 1 + pos_to_off(rest, l - 1, c));
        lemma_pos_off_mono(rest, 0, l - 1);
        lemma_pos_to_off_col(rest, l - 1, c);
    }
}

/// The flat-text position rule and the document position rule agree: a
/// flat offset's line and column, counted from the text, form a valid
/// position of the split document whose flat offset is the original one.
pub proof fn lemma_positions_agree(s: Seq<char>, off: int)
    requires
        0 <= off <= s.len(),
    ensures
        valid_pos(lines_of(s), line_index_at(s, off), column_at(s, off)),
        pos_to_off(lines_of(s), line_index_at(s, off), column_at(s, off)) == off,
        off_to_pos(lines_of(s), off) == Some((line_index_at(s, off), column_at(s, off))),
    decreases off,
{
    let lines = lines_of(s);
    lemma_lines_of_wf(s);
    lemma_lines_flat_roundtrip(s);
    if off == 0 {
        assert(pos_to_off(lines, 0, 0) == 0);
    } else {
        lemma_positions_agree(s, off - 1);
        let l = line_index_at(s, off - 1);
        let c = column_at(s, off - 1);
        lemma_flat_char_at(lines, l, c);
        if s[off - 1] == '\n' {
            // the previous offset sits on a separator: a new line starts
            assert(c == lines[l].len()) by {
                if c < lines[l].len() {
                    assert(lines[l][c] == '\n');
                    assert(lines[l].contains('\n'));
                }
            }
            assert(l < lines.len() - 1);
            assert(line_index_at(s, off) == l + 1);
            assert(column_at(s, off) == 0);
            lemma_pos_to_off_line_step(lines, l);
            lemma_pos_to_off_col(lines, l, c);
        } else {
            // the previous offset sits on a character of its line
            assert(c < lines[l].len());
            assert(line_index_at(s, off) == l);
            assert(column_at(s, off) == c + 1);
            lemma_pos_to_off_col(lines, l, c);
            lemma_pos_to_off_col(lines, l, c + 1);
        }
    }
    lemma_pos_off_roundtrip(lines, line_index_at(s, off), column_at(s, off));
}

/// The total length is the offset of the end of the last line.
proof fn lemma_total_is_last_pos(lines: Seq<Seq<char>>)
    requires
        lines.len() >= 1,
    ensures
        total_len(lines) == pos_to_off(
            lines,
            lines.len() - 1,
            lines[lines.len() - 1].len() as int,
        ),
    decreases lines.len(),
{
    if lines.len() > 1 {
        lemma_total_is_last_pos(lines.drop_first());
    }
}

/// Total character count of the document; `None` only when the count does
/// not fit in `usize`.
pub fn total_length(doc: &TextBuffer) -> (r: Option<usize>)
    requires
        doc.wf(),
    ensures
        r matches Some(n) ==> n == total_len(doc@),
        r is None ==> total_len(doc@) > usize::MAX,
{
    let last = doc.line_count() - 1;
    let c = doc.line_len(last);
    proof {
        lemma_total_is_last_pos(doc@);
    }
    position_to_offset(doc, last, c)
}

/// Position addressed by a flat offset, or `None` when the offset lies past
/// the end of the document.
pub fn offset_to_position(doc: &TextBuffer, offset: usize) -> (r: Option<(usize, usize)>)
    requires
        doc.wf(),
    ensures
        r matches Some(p) ==> off_to_pos(doc@, offset as int) == Some((p.0 as int, p.1 as int)),
        r is None ==> off_to_pos(doc@, offset as int) is None,
{
    let n = doc.line_count();
    let mut l: usize = 0;
    let mut rem: usize = offset;
    proof {
        assert(doc@.skip(0) =~= doc@);
    }
    loop
        invariant
            doc.wf(),
            0 <= l < n,
            n == doc@.len(),
            ({
                let sub = off_to_pos(doc@.skip(l as int), rem as int);
                match off_to_pos(doc@, offset as int) {
                    Some(p) => sub matches Some(q) && p.0 == q.0 + l && p.1 == q.1,
                    None => sub is None,
                }
            }),
        decreases n - l,
    {
        let line_len = doc.line_len(l);
        proof {
            assert(doc@.skip(l as int)[0] == doc@[l as int]);
        }
        if rem <= line_len {
            proof {
                assert(off_to_pos(doc@.skip(l as int), rem as int) == Some((0int, rem as int)));
            }
            return Some((l, rem));
        }
        if l + 1 == n {
            proof {
                assert(doc@.skip(l as int).len() == 1);
                assert(doc@.skip(l as int).drop_first().len() == 0);
                assert(off_to_pos(doc@.skip(l as int).drop_first(),
                    rem - doc@[l as int].len() - 1) is None);
                assert(off_to_pos(doc@.skip(l as int), rem as int) is None);
            }
            return None;
        }
        proof {
            assert(doc@.skip(l as int).drop_first() =~= doc@.skip(l as int + 1));
        }
        rem = rem - (line_len + 1);
        l = l + 1;
    }
}

} // verus!
