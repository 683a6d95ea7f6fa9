//! The editor state: document, cursor, viewport and flags, with the
//! keystroke state machine that mutates them and the application of
//! inbound patches from the remote peer.

use vstd::prelude::*;

use crate::buffer::{
    TextBuffer, join_lines_spec, line_splice, lines_of, lines_wf, split_line_spec,
};
use crate::keys::Key;
use crate::position::{
    lemma_off_to_pos_valid, off_to_pos, offset_to_position, pos_to_off, position_to_offset,
    valid_pos,
};
use crate::wire::TextChange;

verus! {

/// The whole editor state. The cursor always lies within the document; the
/// scroll offsets are moved, never the cursor, to keep it visible.
pub struct Editor {
    pub content: TextBuffer,
    pub cursor_x: usize,
    pub cursor_y: usize,
    pub offset_x: usize,
    pub offset_y: usize,
    pub terminal_rows: usize,
    pub terminal_cols: usize,
    pub filename: Option<String>,
    pub modified: bool,
    pub status_message: String,
    pub should_quit: bool,
}

/// What one keypress asked of the surroundings: whether the document
/// changed, and whether a save was requested.
#[derive(Debug, PartialEq, Eq, Structural, Clone, Copy)]
pub struct KeyOutcome {
    pub changed: bool,
    pub save_requested: bool,
}

/// The scroll offset of one axis after keeping the cursor visible in a
/// window of `w` slots: the offset moves up to the cursor, or down to
/// `cursor - w + 1`, and otherwise stays. (With a window of no slots the
/// offset lands one past the cursor, saturating at the address space.)
pub open spec fn scrolled(off: int, cur: int, w: int) -> int {
    let up = if cur < off {
        cur
    } else {
        off
    };
    if cur - up >= w {
        if cur - w < usize::MAX {
            cur - w + 1
        } else {
            cur - w
        }
    } else {
        up
    }
}

/// Cursor after moving up one line: the column clamps to the new line's
/// length; a no-op on the first line.
pub open spec fn up_cursor(lines: Seq<Seq<char>>, cy: int, cx: int) -> (int, int) {
    if cy > 0 {
        (cy - 1, if cx <= lines[cy - 1].len() {
            cx
        } else {
            lines[cy - 1].len() as int
        })
    } else {
        (cy, cx)
    }
}

/// Cursor after moving down one line: the column clamps to the new line's
/// length; a no-op on the last line.
pub open spec fn down_cursor(lines: Seq<Seq<char>>, cy: int, cx: int) -> (int, int) {
    if cy < lines.len() - 1 {
        (cy + 1, if cx <= lines[cy + 1].len() {
            cx
        } else {
            lines[cy + 1].len() as int
        })
    } else {
        (cy, cx)
    }
}

/// Cursor after moving left one column, wrapping to the end of the
/// previous line at column 0; a no-op at the document start.
pub open spec fn left_cursor(lines: Seq<Seq<char>>, cy: int, cx: int) -> (int, int) {
    if cx > 0 {
        (cy, cx - 1)
    } else if cy > 0 {
        (cy - 1, lines[cy - 1].len() as int)
    } else {
        (cy, cx)
    }
}

/// Cursor after moving right one column, wrapping to the start of the next
/// line at the line's end; a no-op at the document end.
pub open spec fn right_cursor(lines: Seq<Seq<char>>, cy: int, cx: int) -> (int, int) {
    if cx < lines[cy].len() {
        (cy, cx + 1)
    } else if cy < lines.len() - 1 {
        (cy + 1, 0)
    } else {
        (cy, cx)
    }
}

/// The document after a backward deletion at the cursor.
pub open spec fn backspace_doc(lines: Seq<Seq<char>>, cy: int, cx: int) -> Seq<Seq<char>> {
    if cx > 0 {
        line_splice(lines, cy, cx - 1, cx, Seq::empty())
    } else if cy > 0 {
        join_lines_spec(lines, cy - 1)
    } else {
        lines
    }
}

/// The cursor after a backward deletion: the deletion point.
pub open spec fn backspace_cursor(lines: Seq<Seq<char>>, cy: int, cx: int) -> (int, int) {
    if cx > 0 {
        (cy, cx - 1)
    } else if cy > 0 {
        (cy - 1, lines[cy - 1].len() as int)
    } else {
        (cy, cx)
    }
}

/// The document after a forward deletion at the cursor.
pub open spec fn forward_delete_doc(lines: Seq<Seq<char>>, cy: int, cx: int) -> Seq<Seq<char>> {
    if cx < lines[cy].len() {
        line_splice(lines, cy, cx, cx + 1, Seq::empty())
    } else if cy + 1 < lines.len() {
        join_lines_spec(lines, cy)
    } else {
        lines
    }
}

/// The document after an inbound patch: the patch start resolves through
/// the offset mapping; empty text deletes forward at that position, a lone
/// line break (with or without carriage return) splits the line, any other
/// break-free text is inserted into the line. A patch whose start does not
/// resolve, or whose text mixes a line break into other characters, is
/// dropped.
pub open spec fn apply_patch_doc(lines: Seq<Seq<char>>, start: int, text: Seq<char>) -> Seq<
    Seq<char>,
> {
    match off_to_pos(lines, start) {
        None => lines,
        Some(p) => {
            if text.len() == 0 {
                forward_delete_doc(lines, p.0, p.1)
            } else if text == seq!['\n'] || text == seq!['\r', '\n'] {
                split_line_spec(lines, p.0, p.1)
            } else if text.contains('\n') {
                lines
            } else {
                line_splice(lines, p.0, p.1, p.1, text)
            }
        },
    }
}

/// Where an inbound patch sends the cursor, before clamping: a line split
/// pushes it to the start of the next line, an insertion advances the
/// column by the inserted length, anything else leaves it.
pub open spec fn patch_cursor_rule(
    lines: Seq<Seq<char>>,
    start: int,
    text: Seq<char>,
    cy: int,
    cx: int,
) -> (int, int) {
    match off_to_pos(lines, start) {
        None => (cy, cx),
        Some(p) => {
            if text.len() == 0 {
                (cy, cx)
            } else if text == seq!['\n'] || text == seq!['\r', '\n'] {
                (cy + 1, 0)
            } else if text.contains('\n') {
                (cy, cx)
            } else {
                (cy, cx + text.len())
            }
        },
    }
}

/// The part of one document line inside the visible window: at most
/// `cols` characters starting at the column scroll offset, empty for a
/// window row past the last line.
pub open spec fn visible_row_spec(lines: Seq<Seq<char>>, oy: int, ox: int, cols: int, i: int) -> Seq<
    char,
> {
    if oy + i < lines.len() {
        let line = lines[oy + i];
        let lo = if ox <= line.len() {
            ox
        } else {
            line.len() as int
        };
        let take = if cols <= line.len() - lo {
            cols
        } else {
            line.len() - lo
        };
        line.subrange(lo, lo + take)
    } else {
        Seq::empty()
    }
}

/// The nearest valid position to (cy, cx) in the given document: the line
/// clamps to the last line, the column to that line's length.
pub open spec fn clamp_pos(lines: Seq<Seq<char>>, cy: int, cx: int) -> (int, int) {
    let y = if cy < lines.len() {
        cy
    } else {
        lines.len() - 1
    };
    let x = if cx <= lines[y].len() {
        cx
    } else {
        lines[y].len() as int
    };
    (y, x)
}

/// Inserting a character at a valid position and then deleting backward at
/// the resulting cursor restores the original document: the effects of
/// `insert_char` and a following `delete_char` cancel.
pub proof fn lemma_insert_then_backspace(lines: Seq<Seq<char>>, cy: int, cx: int, ch: char)
    requires
        0 <= cy < lines.len(),
        0 <= cx <= lines[cy].len(),
    ensures
        backspace_doc(line_splice(lines, cy, cx, cx, seq![ch]), cy, cx + 1) == lines,
{
    crate::buffer::lemma_insert_then_delete_before(lines, cy, cx, ch);
}

/// The outbound convention coheres for a character insertion: the patch
/// built from the cursor offset after inserting at (l, c) — one before
/// that offset, carrying the character — applied to an identical replica
/// of the document before the edit, reproduces exactly the edit.
pub proof fn lemma_outbound_insert_coheres(lines: Seq<Seq<char>>, l: int, c: int, ch: char)
    requires
        lines_wf(lines),
        valid_pos(lines, l, c),
        ch != '\n',
    ensures
        ({
            let post = line_splice(lines, l, c, c, seq![ch]);
            let start = pos_to_off(post, l, c + 1) - 1;
            apply_patch_doc(lines, start, seq![ch]) == post
        }),
{
    let post = line_splice(lines, l, c, c, seq![ch]);
    let start = pos_to_off(post, l, c + 1) - 1;
    crate::position::lemma_pos_to_off_col(post, l, c + 1);
    crate::position::lemma_pos_to_off_prefix(post, lines, l);
    crate::position::lemma_pos_to_off_col(lines, l, c);
    assert(start == pos_to_off(lines, l, c));
    crate::position::lemma_pos_off_roundtrip(lines, l, c);
    assert(off_to_pos(lines, start) == Some((l, c)));
    assert(!seq![ch].contains('\n')) by {
        if seq![ch].contains('\n') {
            let i = choose|i: int| 0 <= i < 1 && seq![ch][i] == '\n';
            assert(seq![ch][i] == ch);
        }
    }
    assert(seq![ch] != seq!['\n']) by {
        assert(seq![ch][0] == ch);
    }
    assert(seq![ch].len() != 2);
}

/// The outbound convention coheres for a line break: the patch built from
/// the cursor offset after splitting at (l, c), applied to an identical
/// replica of the document before the edit, splits the same line at the
/// same column.
pub proof fn lemma_outbound_enter_coheres(lines: Seq<Seq<char>>, l: int, c: int)
    requires
        lines_wf(lines),
        valid_pos(lines, l, c),
    ensures
        ({
            let post = split_line_spec(lines, l, c);
            let start = pos_to_off(post, l + 1, 0) - 1;
            apply_patch_doc(lines, start, seq!['\n']) == post
        }),
{
    let post = split_line_spec(lines, l, c);
    let start = pos_to_off(post, l + 1, 0) - 1;
    assert(post.len() == lines.len() + 1);
    assert(post[l] == lines[l].take(c));
    crate::position::lemma_pos_to_off_line_step(post, l);
    crate::position::lemma_pos_to_off_prefix(post, lines, l);
    crate::position::lemma_pos_to_off_col(lines, l, c);
    assert(start == pos_to_off(lines, l, c));
    crate::position::lemma_pos_off_roundtrip(lines, l, c);
    assert(off_to_pos(lines, start) == Some((l, c)));
}

/// The outbound convention coheres for a backward deletion: the patch
/// built from the cursor offset after deleting at (l, c) — that offset
/// itself, carrying the empty text — applied to an identical replica of
/// the document before the edit, removes the same character or joins the
/// same lines.
pub proof fn lemma_outbound_backspace_coheres(lines: Seq<Seq<char>>, l: int, c: int)
    requires
        lines_wf(lines),
        valid_pos(lines, l, c),
        !(l == 0 && c == 0),
    ensures
        ({
            let post = backspace_doc(lines, l, c);
            let cur = backspace_cursor(lines, l, c);
            let start = pos_to_off(post, cur.0, cur.1);
            apply_patch_doc(lines, start, Seq::empty()) == post
        }),
{
    let post = backspace_doc(lines, l, c);
    let cur = backspace_cursor(lines, l, c);
    let start = pos_to_off(post, cur.0, cur.1);
    if c > 0 {
        crate::position::lemma_pos_to_off_col(post, l, c - 1);
        crate::position::lemma_pos_to_off_prefix(post, lines, l);
        crate::position::lemma_pos_to_off_col(lines, l, c - 1);
        assert(start == pos_to_off(lines, l, c - 1));
        crate::position::lemma_pos_off_roundtrip(lines, l, c - 1);
        assert(off_to_pos(lines, start) == Some((l, c - 1)));
        assert(forward_delete_doc(lines, l, c - 1) == post);
    } else {
        let plen = lines[l - 1].len() as int;
        assert(post[l - 1] == lines[l - 1] + lines[l]);
        crate::position::lemma_pos_to_off_col(post, l - 1, plen);
        crate::position::lemma_pos_to_off_prefix(post, lines, l - 1);
        crate::position::lemma_pos_to_off_col(lines, l - 1, plen);
        assert(start == pos_to_off(lines, l - 1, plen));
        crate::position::lemma_pos_off_roundtrip(lines, l - 1, plen);
        assert(off_to_pos(lines, start) == Some((l - 1, plen)));
        assert(forward_delete_doc(lines, l - 1, plen) == post);
    }
}

impl Editor {
    /// The editor invariant: a well-formed document and a cursor within
    /// its bounds.
    pub open spec fn wf(&self) -> bool {
        &&& self.content.wf()
        &&& self.cursor_y < self.content@.len()
        &&& self.cursor_x <= self.content@[self.cursor_y as int].len()
    }

    /// Fields a pure cursor move never touches.
    pub open spec fn same_but_cursor(&self, pre: &Editor) -> bool {
        &&& self.content == pre.content
        &&& self.offset_x == pre.offset_x
        &&& self.offset_y == pre.offset_y
        &&& self.terminal_rows == pre.terminal_rows
        &&& self.terminal_cols == pre.terminal_cols
        &&& self.filename == pre.filename
        &&& self.modified == pre.modified
        &&& self.status_message == pre.status_message
        &&& self.should_quit == pre.should_quit
    }

    /// Fields an edit never touches.
    pub open spec fn edit_frame(&self, pre: &Editor) -> bool {
        &&& self.offset_x == pre.offset_x
        &&& self.offset_y == pre.offset_y
        &&& self.terminal_rows == pre.terminal_rows
        &&& self.terminal_cols == pre.terminal_cols
        &&& self.filename == pre.filename
        &&& self.should_quit == pre.should_quit
    }

    /// A fresh editor over the given text (or an empty document), with the
    /// cursor at the origin and two terminal rows reserved for the status
    /// bar.
    pub fn new(filename: Option<String>, text: Option<String>, rows: usize, cols: usize) -> (r:
        Editor)
        ensures
            r.wf(),
            text matches Some(t) ==> r.content@ == lines_of(t@),
            text is None ==> r.content@ == lines_of(Seq::<char>::empty()),
            r.cursor_x == 0 && r.cursor_y == 0 && r.offset_x == 0 && r.offset_y == 0,
            r.terminal_rows == if rows >= 2 {
                rows - 2
            } else {
                0
            },
            r.terminal_cols == cols,
            r.filename == filename,
            r.modified == false,
            r.should_quit == false,
    {
        let content = match &text {
            Some(t) => TextBuffer::from_text(t.as_str()),
            None => {
                proof {
                    assert(lines_of(Seq::<char>::empty()) =~= seq![Seq::<char>::empty()]);
                }
                TextBuffer::from_text("")
            },
        };
        proof {
            if text is None {
                reveal_strlit("");
                assert(""@ =~= Seq::<char>::empty());
            }
        }
        Editor {
            content,
            cursor_x: 0,
            cursor_y: 0,
            offset_x: 0,
            offset_y: 0,
            terminal_rows: if rows >= 2 {
                rows - 2
            } else {
                0
            },
            terminal_cols: cols,
            filename,
            modified: false,
            status_message: String::from_str(
                "Press Ctrl+Q to quit, Ctrl+S to save, Ctrl+H for help",
            ),
            should_quit: false,
        }
    }

    /// Move the cursor up one line; the column clamps to the new line.
    pub fn move_cursor_up(&mut self) -> (r: bool)
        requires
            old(self).wf(),
        ensures
            final(self).wf(),
            final(self).same_but_cursor(old(self)),
            (final(self).cursor_y as int, final(self).cursor_x as int) == up_cursor(
                old(self).content@,
                old(self).cursor_y as int,
                old(self).cursor_x as int,
            ),
            r == false,
    {
        if self.cursor_y > 0 {
            self.cursor_y = self.cursor_y - 1;
            let line_len = self.content.line_len(self.cursor_y);
            if self.cursor_x > line_len {
                self.cursor_x = line_len;
            }
        }
        false
    }

    /// Move the cursor down one line; the column clamps to the new line.
    pub fn move_cursor_down(&mut self) -> (r: bool)
        requires
            old(self).wf(),
        ensures
            final(self).wf(),
            final(self).same_but_cursor(old(self)),
            (final(self).cursor_y as int, final(self).cursor_x as int) == down_cursor(
                old(self).content@,
                old(self).cursor_y as int,
                old(self).cursor_x as int,
            ),
            r == false,
    {
        let count = self.content.line_count();
        if self.cursor_y < count - 1 {
            self.cursor_y = self.cursor_y + 1;
            let line_len = self.content.line_len(self.cursor_y);
            if self.cursor_x > line_len {
                self.cursor_x = line_len;
            }
        }
        false
    }

    /// Move the cursor left one column, wrapping to the end of the
    /// previous line.
    pub fn move_cursor_left(&mut self) -> (r: bool)
        requires
            old(self).wf(),
        ensures
            final(self).wf(),
            final(self).same_but_cursor(old(self)),
            (final(self).cursor_y as int, final(self).cursor_x as int) == left_cursor(
                old(self).content@,
                old(self).cursor_y as int,
                old(self).cursor_x as int,
            ),
            r == false,
    {
        if self.cursor_x > 0 {
            self.cursor_x = self.cursor_x - 1;
        } else if self.cursor_y > 0 {
            self.cursor_y = self.cursor_y - 1;
            self.cursor_x = self.content.line_len(self.cursor_y);
        }
        false
    }

    /// Move the cursor right one column, wrapping to the start of the next
    /// line.
    pub fn move_cursor_right(&mut self) -> (r: bool)
        requires
            old(self).wf(),
        ensures
            final(self).wf(),
            final(self).same_but_cursor(old(self)),
            (final(self).cursor_y as int, final(self).cursor_x as int) == right_cursor(
                old(self).content@,
                old(self).cursor_y as int,
                old(self).cursor_x as int,
            ),
            r == false,
    {
        let line_len = self.content.line_len(self.cursor_y);
        let count = self.content.line_count();
        if self.cursor_x < line_len {
            self.cursor_x = self.cursor_x + 1;
        } else if self.cursor_y < count - 1 {
            self.cursor_y = self.cursor_y + 1;
            self.cursor_x = 0;
        }
        false
    }

    /// Adjust the scroll offsets — never the cursor — so the cursor lies
    /// inside the visible window.
    pub fn scroll(&mut self)
        requires
            old(self).wf(),
        ensures
            final(self).wf(),
            final(self).content == old(self).content,
            final(self).cursor_x == old(self).cursor_x,
            final(self).cursor_y == old(self).cursor_y,
            final(self).terminal_rows == old(self).terminal_rows,
            final(self).terminal_cols == old(self).terminal_cols,
            final(self).filename == old(self).filename,
            final(self).modified == old(self).modified,
            final(self).status_message == old(self).status_message,
            final(self).should_quit == old(self).should_quit,
            final(self).offset_y == scrolled(
                old(self).offset_y as int,
                old(self).cursor_y as int,
                old(self).terminal_rows as int,
            ),
            final(self).offset_x == scrolled(
                old(self).offset_x as int,
                old(self).cursor_x as int,
                old(self).terminal_cols as int,
            ),
    {
        self.offset_y = scroll_axis(self.offset_y, self.cursor_y, self.terminal_rows);
        self.offset_x = scroll_axis(self.offset_x, self.cursor_x, self.terminal_cols);
    }

    /// Insert one printable character at the cursor; the cursor advances
    /// past it.
    pub fn insert_char(&mut self, c: char) -> (r: bool)
        requires
            old(self).wf(),
            c != '\n',
        ensures
            final(self).wf(),
            final(self).edit_frame(old(self)),
            final(self).content@ == line_splice(
                old(self).content@,
                old(self).cursor_y as int,
                old(self).cursor_x as int,
                old(self).cursor_x as int,
                seq![c],
            ),
            final(self).cursor_y == old(self).cursor_y,
            final(self).cursor_x == old(self).cursor_x + 1,
            final(self).modified == true,
            final(self).status_message@ == Seq::<char>::empty(),
            r == true,
    {
        let ghost pre = self.content@;
        self.content.insert(self.cursor_y, self.cursor_x, c);
        proof {
            assert(crate::buffer::padded_to(pre, old(self).cursor_y as int) == pre);
        }
        // the line grew by one character, so the new column fits in usize
        let new_len = self.content.line_len(self.cursor_y);
        assert(new_len == pre[old(self).cursor_y as int].len() + 1);
        self.cursor_x = self.cursor_x + 1;
        self.modified = true;
        self.status_message = String::new();
        true
    }

    /// Split the current line at the cursor; the cursor moves to the
    /// start of the new line.
    pub fn insert_newline(&mut self) -> (r: bool)
        requires
            old(self).wf(),
        ensures
            final(self).wf(),
            final(self).edit_frame(old(self)),
            final(self).content@ == split_line_spec(
                old(self).content@,
                old(self).cursor_y as int,
                old(self).cursor_x as int,
            ),
            final(self).cursor_y == old(self).cursor_y + 1,
            final(self).cursor_x == 0,
            final(self).modified == true,
            final(self).status_message@ == Seq::<char>::empty(),
            r == true,
    {
        let ghost pre = self.content@;
        self.content.insert_line_break(self.cursor_y, self.cursor_x);
        proof {
            assert(crate::buffer::padded_to(pre, old(self).cursor_y as int) == pre);
        }
        // the document grew by one line, so the new line index fits in usize
        let count = self.content.line_count();
        assert(count == pre.len() + 1);
        self.cursor_y = self.cursor_y + 1;
        self.cursor_x = 0;
        self.modified = true;
        self.status_message = String::new();
        true
    }

    /// Backward deletion at the cursor: remove the character before it, or
    /// at column 0 merge the line onto the previous one. A no-op at the
    /// document start.
    pub fn delete_char(&mut self) -> (r: bool)
        requires
            old(self).wf(),
        ensures
            final(self).wf(),
            final(self).edit_frame(old(self)),
            final(self).content@ == backspace_doc(
                old(self).content@,
                old(self).cursor_y as int,
                old(self).cursor_x as int,
            ),
            (final(self).cursor_y as int, final(self).cursor_x as int) == backspace_cursor(
                old(self).content@,
                old(self).cursor_y as int,
                old(self).cursor_x as int,
            ),
            r == !(old(self).cursor_x == 0 && old(self).cursor_y == 0),
            r ==> final(self).modified == true && final(self).status_message@
                == Seq::<char>::empty(),
            !r ==> final(self).modified == old(self).modified && final(self).status_message == old(self).status_message,
    {
        if self.cursor_x == 0 && self.cursor_y == 0 {
            return false;
        }
        if self.cursor_x > 0 {
            self.content.delete_before(self.cursor_y, self.cursor_x);
            self.cursor_x = self.cursor_x - 1;
        } else {
            let prev_len = self.content.line_len(self.cursor_y - 1);
            self.content.delete_before(self.cursor_y, 0);
            self.cursor_y = self.cursor_y - 1;
            self.cursor_x = prev_len;
        }
        self.modified = true;
        self.status_message = String::new();
        true
    }

    /// Forward deletion at the cursor: remove the character under it, or
    /// at the line's end merge the next line onto this one. A no-op at the
    /// document end.
    pub fn delete_char_forward(&mut self) -> (r: bool)
        requires
            old(self).wf(),
        ensures
            final(self).wf(),
            final(self).edit_frame(old(self)),
            final(self).content@ == forward_delete_doc(
                old(self).content@,
                old(self).cursor_y as int,
                old(self).cursor_x as int,
            ),
            final(self).cursor_x == old(self).cursor_x,
            final(self).cursor_y == old(self).cursor_y,
            r == (old(self).cursor_x < old(self).content@[old(self).cursor_y as int].len()
                || old(self).cursor_y + 1 < old(self).content@.len()),
            r ==> final(self).modified == true && final(self).status_message@
                == Seq::<char>::empty(),
            !r ==> final(self).modified == old(self).modified && final(self).status_message == old(self).status_message,
    {
        let line_len = self.content.line_len(self.cursor_y);
        let count = self.content.line_count();
        if self.cursor_x >= line_len && self.cursor_y + 1 >= count {
            return false;
        }
        self.content.delete_at(self.cursor_y, self.cursor_x);
        self.modified = true;
        self.status_message = String::new();
        true
    }

    /// Handle one key event to completion: edits mutate the document,
    /// navigation moves the cursor, the control combinations drive the
    /// quit, save and help rules; afterwards the scroll offsets are
    /// recomputed unconditionally.
    pub fn process_keypress(&mut self, key: &Key) -> (r: KeyOutcome)
        requires
            old(self).wf(),
        ensures
            final(self).wf(),
            final(self).terminal_rows == old(self).terminal_rows,
            final(self).terminal_cols == old(self).terminal_cols,
            final(self).filename == old(self).filename,
            final(self).offset_y == scrolled(
                old(self).offset_y as int,
                final(self).cursor_y as int,
                old(self).terminal_rows as int,
            ),
            final(self).offset_x == scrolled(
                old(self).offset_x as int,
                final(self).cursor_x as int,
                old(self).terminal_cols as int,
            ),
            r.save_requested == (*key == Key::Ctrl(115)),
            *key == Key::Ctrl(113) && old(self).modified ==> final(self).content == old(self).content && final(self).cursor_x == old(self).cursor_x && final(self).cursor_y == old(self).cursor_y && final(self).modified == false && final(self).should_quit == old(self).should_quit && final(self).status_message@
                == "File has unsaved changes! Press Ctrl+Q again to quit."@ && r.changed == false,
            *key == Key::Ctrl(113) && !old(self).modified ==> final(self).content == old(self).content && final(self).cursor_x == old(self).cursor_x && final(self).cursor_y == old(self).cursor_y && final(self).modified == false && final(self).should_quit == true
                && final(self).status_message == old(self).status_message && r.changed == false,
            *key == Key::Ctrl(115) ==> final(self).inert(old(self)) && r.changed == false,
            *key == Key::Ctrl(104) ==> final(self).content == old(self).content && final(self).cursor_x == old(self).cursor_x && final(self).cursor_y == old(self).cursor_y && final(self).modified == old(self).modified && final(self).should_quit == old(self).should_quit
                && final(self).status_message@
                == "Ctrl+Q: Quit | Ctrl+S: Save | Arrow keys: Navigate | Enter: New line"@
                && r.changed == false,
            (key matches Key::Ctrl(c) && c != 113 && c != 115 && c != 104) ==> final(self).content == old(self).content && final(self).cursor_x == old(self).cursor_x && final(self).cursor_y == old(self).cursor_y && final(self).modified == old(self).modified && final(self).should_quit == old(self).should_quit && r.changed == false,
            *key == Key::Escape ==> final(self).inert(old(self)) && r.changed == false,
            *key == Key::Up ==> final(self).nav_only(old(self)) && (
            final(self).cursor_y as int,
            final(self).cursor_x as int,
            ) == up_cursor(old(self).content@, old(self).cursor_y as int, old(self).cursor_x as int)
                && r.changed == false,
            *key == Key::Down ==> final(self).nav_only(old(self)) && (
            final(self).cursor_y as int,
            final(self).cursor_x as int,
            ) == down_cursor(
                old(self).content@,
                old(self).cursor_y as int,
                old(self).cursor_x as int,
            ) && r.changed == false,
            *key == Key::Left ==> final(self).nav_only(old(self)) && (
            final(self).cursor_y as int,
            final(self).cursor_x as int,
            ) == left_cursor(
                old(self).content@,
                old(self).cursor_y as int,
                old(self).cursor_x as int,
            ) && r.changed == false,
            *key == Key::Right ==> final(self).nav_only(old(self)) && (
            final(self).cursor_y as int,
            final(self).cursor_x as int,
            ) == right_cursor(
                old(self).content@,
                old(self).cursor_y as int,
                old(self).cursor_x as int,
            ) && r.changed == false,
            *key == Key::Home ==> final(self).nav_only(old(self)) && final(self).cursor_y == old(self).cursor_y && final(self).cursor_x == 0 && r.changed == false,
            *key == Key::End ==> final(self).nav_only(old(self)) && final(self).cursor_y == old(self).cursor_y && final(self).cursor_x == old(self).content@[old(self).cursor_y as int].len() && r.changed == false,
            *key == Key::Enter ==> final(self).content@ == split_line_spec(
                old(self).content@,
                old(self).cursor_y as int,
                old(self).cursor_x as int,
            ) && final(self).cursor_y == old(self).cursor_y + 1 && final(self).cursor_x == 0
                && final(self).modified == true && final(self).status_message@
                == Seq::<char>::empty() && final(self).should_quit == old(self).should_quit
                && r.changed == true,
            *key == Key::Backspace ==> final(self).content@ == backspace_doc(
                old(self).content@,
                old(self).cursor_y as int,
                old(self).cursor_x as int,
            ) && (final(self).cursor_y as int, final(self).cursor_x as int) == backspace_cursor(
                old(self).content@,
                old(self).cursor_y as int,
                old(self).cursor_x as int,
            ) && final(self).should_quit == old(self).should_quit && r.changed == !(old(self).cursor_x == 0 && old(self).cursor_y == 0) && (r.changed ==> final(self).modified
                == true) && (!r.changed ==> final(self).modified == old(self).modified),
            *key == Key::Delete ==> final(self).content@ == forward_delete_doc(
                old(self).content@,
                old(self).cursor_y as int,
                old(self).cursor_x as int,
            ) && final(self).cursor_y == old(self).cursor_y && final(self).cursor_x == old(self).cursor_x && final(self).should_quit == old(self).should_quit && r.changed == (old(self).cursor_x < old(self).content@[old(self).cursor_y as int].len() || old(self).cursor_y
                + 1 < old(self).content@.len()) && (r.changed ==> final(self).modified == true) && (
            !r.changed ==> final(self).modified == old(self).modified),
            key matches Key::Char(c) ==> (if c == '\n' {
                final(self).inert(old(self)) && r.changed == false
            } else {
                final(self).content@ == line_splice(
                    old(self).content@,
                    old(self).cursor_y as int,
                    old(self).cursor_x as int,
                    old(self).cursor_x as int,
                    seq![*c],
                ) && final(self).cursor_y == old(self).cursor_y && final(self).cursor_x == old(self).cursor_x + 1 && final(self).modified == true && final(self).should_quit == old(self).should_quit && r.changed == true
            }),
    {
        let mut changed = false;
        let mut save_requested = false;
        match key {
            Key::Ctrl(c) => {
                let cc = *c;
                if cc == 113 {
                    if self.modified {
                        self.status_message = String::from_str(
                            "File has unsaved changes! Press Ctrl+Q again to quit.",
                        );
                        self.modified = false;
                    } else {
                        self.should_quit = true;
                    }
                } else if cc == 115 {
                    save_requested = true;
                } else if cc == 104 {
                    self.status_message = String::from_str(
                        "Ctrl+Q: Quit | Ctrl+S: Save | Arrow keys: Navigate | Enter: New line",
                    );
                } else {
                    self.status_message = String::from_str("Unrecognized control key");
                }
            },
            Key::Up => {
                let _ = self.move_cursor_up();
            },
            Key::Down => {
                let _ = self.move_cursor_down();
            },
            Key::Left => {
                let _ = self.move_cursor_left();
            },
            Key::Right => {
                let _ = self.move_cursor_right();
            },
            Key::Home => {
                self.cursor_x = 0;
            },
            Key::End => {
                self.cursor_x = self.content.line_len(self.cursor_y);
            },
            Key::Enter => {
                changed = self.insert_newline();
            },
            Key::Backspace => {
                changed = self.delete_char();
            },
            Key::Delete => {
                changed = self.delete_char_forward();
            },
            Key::Char(c) => {
                if *c != '\n' {
                    changed = self.insert_char(*c);
                }
            },
            Key::Escape => {},
        }
        self.scroll();
        KeyOutcome { changed, save_requested }
    }

    /// Fields untouched by a keypress that only signals something.
    pub open spec fn inert(&self, pre: &Editor) -> bool {
        &&& self.content == pre.content
        &&& self.cursor_x == pre.cursor_x
        &&& self.cursor_y == pre.cursor_y
        &&& self.modified == pre.modified
        &&& self.status_message == pre.status_message
        &&& self.should_quit == pre.should_quit
    }

    /// Fields untouched by pure navigation.
    pub open spec fn nav_only(&self, pre: &Editor) -> bool {
        &&& self.content == pre.content
        &&& self.modified == pre.modified
        &&& self.status_message == pre.status_message
        &&& self.should_quit == pre.should_quit
    }

    /// The save half the editor decides itself: the file to write, or a
    /// prompt in the status line when none is named.
    pub fn request_save(&mut self) -> (r: Option<String>)
        requires
            old(self).wf(),
        ensures
            final(self).wf(),
            old(self).filename matches Some(f) ==> r matches Some(g) && g == f && final(self).inert(old(self)) && final(self).same_but_cursor(old(self)),
            old(self).filename is None ==> r is None && final(self).status_message@
                == "Enter filename: "@ && final(self).content == old(self).content && final(self).cursor_x == old(self).cursor_x && final(self).cursor_y == old(self).cursor_y && final(self).modified == old(self).modified && final(self).should_quit == old(self).should_quit
                && final(self).filename == old(self).filename,
    {
        match &self.filename {
            Some(f) => Some(f.clone()),
            None => {
                self.status_message = String::from_str("Enter filename: ");
                None
            },
        }
    }

    /// Record the outcome of the external write: success clears the
    /// modified flag; the caller supplies the status line either way.
    pub fn finish_save(&mut self, ok: bool, message: String)
        requires
            old(self).wf(),
        ensures
            final(self).wf(),
            final(self).status_message == message,
            final(self).modified == (old(self).modified && !ok),
            final(self).content == old(self).content,
            final(self).cursor_x == old(self).cursor_x,
            final(self).cursor_y == old(self).cursor_y,
            final(self).offset_x == old(self).offset_x,
            final(self).offset_y == old(self).offset_y,
            final(self).terminal_rows == old(self).terminal_rows,
            final(self).terminal_cols == old(self).terminal_cols,
            final(self).filename == old(self).filename,
            final(self).should_quit == old(self).should_quit,
    {
        self.status_message = message;
        if ok {
            self.modified = false;
        }
    }

    /// Pull the cursor back inside the document after a mutation that may
    /// have shrunk or reshaped it.
    fn clamp_cursor(&mut self)
        requires
            old(self).content.wf(),
        ensures
            final(self).wf(),
            (final(self).cursor_y as int, final(self).cursor_x as int) == clamp_pos(
                old(self).content@,
                old(self).cursor_y as int,
                old(self).cursor_x as int,
            ),
            final(self).content == old(self).content,
            final(self).offset_x == old(self).offset_x,
            final(self).offset_y == old(self).offset_y,
            final(self).terminal_rows == old(self).terminal_rows,
            final(self).terminal_cols == old(self).terminal_cols,
            final(self).filename == old(self).filename,
            final(self).modified == old(self).modified,
            final(self).status_message == old(self).status_message,
            final(self).should_quit == old(self).should_quit,
    {
        let count = self.content.line_count();
        if self.cursor_y >= count {
            self.cursor_y = count - 1;
        }
        let line_len = self.content.line_len(self.cursor_y);
        if self.cursor_x > line_len {
            self.cursor_x = line_len;
        }
    }

    /// Apply one inbound patch from the remote peer: resolve its start
    /// offset, mutate the document by the inbound rule, move the cursor by
    /// the patch and clamp it back into the document, and mark the
    /// document modified. A patch that does not resolve is dropped.
    pub fn apply_change(&mut self, change: &TextChange)
        requires
            old(self).wf(),
        ensures
            final(self).wf(),
            final(self).content@ == apply_patch_doc(
                old(self).content@,
                change.start as int,
                change.text@,
            ),
            (final(self).cursor_y as int, final(self).cursor_x as int) == clamp_pos(
                apply_patch_doc(old(self).content@, change.start as int, change.text@),
                patch_cursor_rule(
                    old(self).content@,
                    change.start as int,
                    change.text@,
                    old(self).cursor_y as int,
                    old(self).cursor_x as int,
                ).0,
                patch_cursor_rule(
                    old(self).content@,
                    change.start as int,
                    change.text@,
                    old(self).cursor_y as int,
                    old(self).cursor_x as int,
                ).1,
            ),
            final(self).modified == true,
            final(self).status_message@ == "Applied remote change"@,
            final(self).edit_frame(old(self)),
    {
        let ghost pre = self.content@;
        let tlen = change.text.as_str().unicode_len();
        match offset_to_position(&self.content, change.start) {
            None => {},
            Some((line, col)) => {
                proof {
                    lemma_off_to_pos_valid(pre, change.start as int);
                }
                if tlen == 0 {
                    self.content.delete_at(line, col);
                } else {
                    let is_newline = tlen == 1 && change.text.as_str().get_char(0) == '\n';
                    let is_crlf = tlen == 2 && change.text.as_str().get_char(0) == '\r'
                        && change.text.as_str().get_char(1) == '\n';
                    if is_newline || is_crlf {
                        proof {
                            if tlen == 1 {
                                assert(change.text@ =~= seq!['\n']);
                            } else {
                                assert(change.text@ =~= seq!['\r', '\n']);
                            }
                        }
                        self.content.insert_line_break(line, col);
                        proof {
                            assert(crate::buffer::padded_to(pre, line as int) == pre);
                        }
                        // the document grew by one line, so the cursor line
                        // below stays in bounds
                        let count = self.content.line_count();
                        assert(count == pre.len() + 1);
                        self.cursor_y = self.cursor_y + 1;
                        self.cursor_x = 0;
                    } else {
                        proof {
                            if change.text@ == seq!['\n'] {
                                assert(change.text@.len() == 1 && change.text@[0] == '\n');
                            }
                            if change.text@ == seq!['\r', '\n'] {
                                assert(change.text@.len() == 2 && change.text@[0] == '\r'
                                    && change.text@[1] == '\n');
                            }
                        }
                        if str_has_newline(change.text.as_str()) {
                            // mixed text would break the line structure: drop it
                        } else {
                            self.content.insert_text(line, col, change.text.as_str());
                            // advance the column; past any representable
                            // column it can only clamp to the line's end
                            let new_cx = match self.cursor_x.checked_add(tlen) {
                                Some(v) => v,
                                None => self.content.line_len(self.cursor_y),
                            };
                            self.cursor_x = new_cx;
                        }
                    }
                }
            },
        }
        self.clamp_cursor();
        self.modified = true;
        self.status_message = String::from_str("Applied remote change");
    }

    /// The window's text content, one entry per visible row: the slice of
    /// each document line that the scroll offsets and the window size
    /// select. Rows past the last line are empty.
    pub fn visible_rows(&self) -> (r: Vec<String>)
        requires
            self.wf(),
        ensures
            r@.len() == self.terminal_rows,
            forall|i: int|
                0 <= i < r@.len() ==> (#[trigger] r@[i])@ == visible_row_spec(
                    self.content@,
                    self.offset_y as int,
                    self.offset_x as int,
                    self.terminal_cols as int,
                    i,
                ),
    {
        let mut out: Vec<String> = Vec::new();
        let count = self.content.line_count();
        let mut row: usize = 0;
        while row < self.terminal_rows
            invariant
                self.wf(),
                row <= self.terminal_rows,
                count == self.content@.len(),
                out@.len() == row,
                forall|i: int|
                    0 <= i < row ==> (#[trigger] out@[i])@ == visible_row_spec(
                        self.content@,
                        self.offset_y as int,
                        self.offset_x as int,
                        self.terminal_cols as int,
                        i,
                    ),
            decreases self.terminal_rows - row,
        {
            if row < count && self.offset_y <= count - 1 - row {
                let file_row = row + self.offset_y;
                let len = self.content.line_len(file_row);
                let lo = if self.offset_x <= len {
                    self.offset_x
                } else {
                    len
                };
                let take = if self.terminal_cols <= len - lo {
                    self.terminal_cols
                } else {
                    len - lo
                };
                let piece = self.content.lines[file_row].as_str().substring_char(
                    lo,
                    lo + take,
                ).to_owned();
                out.push(piece);
            } else {
                out.push(String::new());
            }
            row = row + 1;
        }
        out
    }

    /// The flat offset of the cursor; `None` only when it does not fit in
    /// `usize`.
    pub fn cursor_offset(&self) -> (r: Option<usize>)
        requires
            self.wf(),
        ensures
            r matches Some(n) ==> n == pos_to_off(
                self.content@,
                self.cursor_y as int,
                self.cursor_x as int,
            ),
            r is None ==> pos_to_off(self.content@, self.cursor_y as int, self.cursor_x as int)
                > usize::MAX,
    {
        position_to_offset(&self.content, self.cursor_y, self.cursor_x)
    }
}

/// Whether a text holds a line break.
fn str_has_newline(s: &str) -> (r: bool)
    ensures
        r == s@.contains('\n'),
{
    let n = s.unicode_len();
    let mut i: usize = 0;
    while i < n
        invariant
            i <= n,
            n == s@.len(),
            forall|k: int| 0 <= k < i ==> s@[k] != '\n',
        decreases n - i,
    {
        if s.get_char(i) == '\n' {
            assert(s@.contains('\n'));
            return true;
        }
        i = i + 1;
    }
    proof {
        if s@.contains('\n') {
            let k = choose|k: int| 0 <= k < s@.len() && s@[k] == '\n';
            assert(s@[k] != '\n');
        }
    }
    false
}

/// One axis of the scroll rule.
fn scroll_axis(off: usize, cur: usize, w: usize) -> (r: usize)
    ensures
        r == scrolled(off as int, cur as int, w as int),
{
    let up = if cur < off {
        cur
    } else {
        off
    };
    if cur - up >= w {
        let base = cur - w;
        if base < usize::MAX {
            base + 1
        } else {
            base
        }
    } else {
        up
    }
}

} // verus!
