//! The line-oriented document buffer: an ordered, never-empty sequence of
//! line strings. Joining the lines with `'\n'` reconstructs the whole text;
//! no line ever contains a `'\n'` itself. Columns and offsets count
//! characters, not bytes.

use vstd::prelude::*;
use vstd::pervasive::VecAdditionalExecFns;

verus! {

/// Well-formedness of a document model: at least one line, no line holds a
/// line break.
pub open spec fn lines_wf(lines: Seq<Seq<char>>) -> bool {
    &&& lines.len() >= 1
    &&& forall|i: int| 0 <= i < lines.len() ==> !(#[trigger] lines[i]).contains('\n')
}

/// Replace the characters `[a, b)` of line `l` by `mid`.
pub open spec fn line_splice(
    lines: Seq<Seq<char>>,
    l: int,
    a: int,
    b: int,
    mid: Seq<char>,
) -> Seq<Seq<char>> {
    lines.update(l, lines[l].take(a) + mid + lines[l].skip(b))
}

/// Split line `l` at column `col` into two lines, in place.
pub open spec fn split_line_spec(lines: Seq<Seq<char>>, l: int, col: int) -> Seq<Seq<char>> {
    lines.update(l, lines[l].take(col)).insert(l + 1, lines[l].skip(col))
}

/// Merge line `l + 1` onto the end of line `l` and remove it.
pub open spec fn join_lines_spec(lines: Seq<Seq<char>>, l: int) -> Seq<Seq<char>> {
    lines.update(l, lines[l] + lines[l + 1]).remove(l + 1)
}

/// The document with one empty line appended when `line` addresses the
/// position one past the last line (the defensive growth step of insertion).
pub open spec fn padded_to(lines: Seq<Seq<char>>, line: int) -> Seq<Seq<char>> {
    if line == lines.len() {
        lines.push(Seq::empty())
    } else {
        lines
    }
}

/// A subrange of a line without a line break has no line break.
proof fn lemma_no_nl_subrange(s: Seq<char>, a: int, b: int)
    requires
        !s.contains('\n'),
        0 <= a <= b <= s.len(),
    ensures
        !s.subrange(a, b).contains('\n'),
{
    let sub = s.subrange(a, b);
    assert forall|i: int| 0 <= i < sub.len() implies sub[i] != '\n' by {
        assert(sub[i] == s[a + i]);
        if s[a + i] == '\n' {
            assert(s.contains('\n'));
        }
    }
    if sub.contains('\n') {
        let i = choose|i: int| 0 <= i < sub.len() && sub[i] == '\n';
        assert(sub[i] != '\n');
    }
}

/// Concatenations of line-break-free pieces are line-break-free.
proof fn lemma_no_nl_concat(a: Seq<char>, b: Seq<char>)
    requires
        !a.contains('\n'),
        !b.contains('\n'),
    ensures
        !(a + b).contains('\n'),
{
    let c = a + b;
    assert forall|i: int| 0 <= i < c.len() implies c[i] != '\n' by {
        if i < a.len() {
            if a[i] == '\n' {
                assert(a.contains('\n'));
            }
        } else {
            if b[i - a.len()] == '\n' {
                assert(b.contains('\n'));
            }
        }
    }
    if c.contains('\n') {
        let i = choose|i: int| 0 <= i < c.len() && c[i] == '\n';
        assert(c[i] != '\n');
    }
}

/// The document model: each line as a sequence of characters.
pub struct TextBuffer {
    pub lines: Vec<String>,
}

impl View for TextBuffer {
    type V = Seq<Seq<char>>;

    open spec fn view(&self) -> Seq<Seq<char>> {
        self.lines@.map_values(|s: String| s@)
    }
}

/// The whole text of a document: its lines joined with one line break per
/// line boundary.
pub open spec fn flat_of(lines: Seq<Seq<char>>) -> Seq<char>
    decreases lines.len(),
{
    if lines.len() == 0 {
        Seq::empty()
    } else if lines.len() == 1 {
        lines[0]
    } else {
        lines[0] + seq!['\n'] + flat_of(lines.drop_first())
    }
}

/// The document a whole text denotes: the text split at each line break.
/// `n` line breaks give `n + 1` lines; the empty text gives one empty line.
pub open spec fn lines_of(s: Seq<char>) -> Seq<Seq<char>>
    decreases s.len(),
{
    if s.len() == 0 {
        seq![Seq::<char>::empty()]
    } else if s[0] == '\n' {
        seq![Seq::<char>::empty()] + lines_of(s.drop_first())
    } else {
        let rest = lines_of(s.drop_first());
        seq![seq![s[0]] + rest[0]] + rest.drop_first()
    }
}

/// Splitting yields at least one line.
pub proof fn lemma_lines_of_len(s: Seq<char>)
    ensures
        lines_of(s).len() >= 1,
    decreases s.len(),
{
    if s.len() != 0 {
        lemma_lines_of_len(s.drop_first());
    }
}

/// Splitting yields a well-formed document: no split piece holds a line
/// break.
pub proof fn lemma_lines_of_wf(s: Seq<char>)
    ensures
        lines_wf(lines_of(s)),
    decreases s.len(),
{
    lemma_lines_of_len(s);
    if s.len() == 0 {
        assert(!lines_of(s)[0].contains('\n'));
    } else if s[0] == '\n' {
        lemma_lines_of_wf(s.drop_first());
        let r = lines_of(s);
        assert forall|i: int| 0 <= i < r.len() implies !(#[trigger] r[i]).contains('\n') by {
            if i == 0 {
                assert(r[0].len() == 0);
            } else {
                assert(r[i] == lines_of(s.drop_first())[i - 1]);
            }
        }
    } else {
        lemma_lines_of_wf(s.drop_first());
        lemma_lines_of_len(s.drop_first());
        let rest = lines_of(s.drop_first());
        lemma_no_nl_concat(seq![s[0]], rest[0]);
        let r = lines_of(s);
        assert forall|i: int| 0 <= i < r.len() implies !(#[trigger] r[i]).contains('\n') by {
            if i == 0 {
                assert(r[0] == seq![s[0]] + rest[0]);
            } else {
                assert(r[i] == rest[i]);
            }
        }
    }
}

/// A line-break-free text splits into exactly itself.
pub proof fn lemma_lines_of_single(s: Seq<char>)
    requires
        !s.contains('\n'),
    ensures
        lines_of(s) == seq![s],
    decreases s.len(),
{
    if s.len() == 0 {
        assert(lines_of(s) =~~= seq![s]);
    } else {
        assert(s[0] != '\n') by {
            if s[0] == '\n' {
                assert(s.contains('\n'));
            }
        }
        lemma_no_nl_subrange(s, 1, s.len() as int);
        lemma_lines_of_single(s.drop_first());
        let rest = lines_of(s.drop_first());
        assert(lines_of(s) == seq![seq![s[0]] + rest[0]] + rest.drop_first());
        assert(rest[0] == s.drop_first());
        assert(rest.drop_first().len() == 0);
        assert(seq![s[0]] + s.drop_first() =~= s);
        assert(lines_of(s) =~= seq![s]);
    }
}

/// Splitting after a leading line-break-free line peels that line off.
pub proof fn lemma_lines_of_prepend(a: Seq<char>, t: Seq<char>)
    requires
        !a.contains('\n'),
    ensures
        lines_of(a + seq!['\n'] + t) == seq![a] + lines_of(t),
    decreases a.len(),
{
    let s = a + seq!['\n'] + t;
    if a.len() == 0 {
        assert(s[0] == '\n');
        assert(s.drop_first() =~= t);
        assert(lines_of(s) =~~= seq![a] + lines_of(t));
    } else {
        assert(s[0] == a[0]);
        assert(a[0] != '\n') by {
            if a[0] == '\n' {
                assert(a.contains('\n'));
            }
        }
        lemma_no_nl_subrange(a, 1, a.len() as int);
        assert(s.drop_first() =~= a.drop_first() + seq!['\n'] + t);
        lemma_lines_of_prepend(a.drop_first(), t);
        let rest = lines_of(s.drop_first());
        assert(lines_of(s) == seq![seq![s[0]] + rest[0]] + rest.drop_first());
        assert(rest == seq![a.drop_first()] + lines_of(t));
        lemma_lines_of_len(t);
        assert(rest[0] == a.drop_first());
        assert(seq![s[0]] + a.drop_first() =~= a);
        assert(rest.drop_first() =~= lines_of(t));
        assert(lines_of(s) =~= seq![a] + lines_of(t));
    }
}

/// Saving then loading is the identity on documents: splitting the joined
/// text of a well-formed document restores exactly its lines.
pub proof fn lemma_flat_lines_roundtrip(lines: Seq<Seq<char>>)
    requires
        lines_wf(lines),
    ensures
        lines_of(flat_of(lines)) == lines,
    decreases lines.len(),
{
    if lines.len() == 1 {
        lemma_lines_of_single(lines[0]);
        assert(lines_of(flat_of(lines)) =~= lines);
    } else {
        let rest = lines.drop_first();
        assert(lines_wf(rest)) by {
            assert forall|i: int| 0 <= i < rest.len() implies !(#[trigger] rest[i]).contains(
                '\n',
            ) by {
                assert(rest[i] == lines[i + 1]);
            }
        }
        lemma_flat_lines_roundtrip(rest);
        lemma_lines_of_prepend(lines[0], flat_of(rest));
        assert(lines_of(flat_of(lines)) =~= lines);
    }
}

/// Joining the split pieces of any text restores exactly that text.
pub proof fn lemma_lines_flat_roundtrip(s: Seq<char>)
    ensures
        flat_of(lines_of(s)) == s,
    decreases s.len(),
{
    if s.len() == 0 {
        assert(flat_of(lines_of(s)) =~= s);
    } else if s[0] == '\n' {
        lemma_lines_flat_roundtrip(s.drop_first());
        lemma_lines_of_len(s.drop_first());
        let r = lines_of(s.drop_first());
        let whole = seq![Seq::<char>::empty()] + r;
        assert(whole.drop_first() =~= r);
        if r.len() == 0 {
        } else {
            assert(flat_of(whole) == whole[0] + seq!['\n'] + flat_of(r)) by {
                assert(whole.len() >= 2);
            }
            assert(flat_of(whole) =~= s);
        }
    } else {
        lemma_lines_flat_roundtrip(s.drop_first());
        lemma_lines_of_len(s.drop_first());
        let r = lines_of(s.drop_first());
        let x = seq![s[0]] + r[0];
        let whole = seq![x] + r.drop_first();
        if r.len() == 1 {
            assert(whole.len() == 1);
            assert(flat_of(whole) == x);
            assert(flat_of(r) == r[0]);
            assert(flat_of(whole) =~= s);
        } else {
            assert(whole.len() >= 2);
            assert(whole.drop_first() =~= r.drop_first());
            assert(flat_of(whole) == x + seq!['\n'] + flat_of(r.drop_first()));
            assert(flat_of(r) == r[0] + seq!['\n'] + flat_of(r.drop_first()));
            assert(s.drop_first() == (r[0] + seq!['\n']) + flat_of(r.drop_first()));
            assert(seq![s[0]] + s.drop_first() =~= s);
            assert(flat_of(whole) =~= s);
        }
    }
}

/// Appending a line to a nonempty document appends a separator and the
/// line to the joined text.
proof fn lemma_flat_push(lines: Seq<Seq<char>>, last: Seq<char>)
    requires
        lines.len() >= 1,
    ensures
        flat_of(lines.push(last)) == flat_of(lines) + seq!['\n'] + last,
    decreases lines.len(),
{
    let grown = lines.push(last);
    if lines.len() == 1 {
        assert(grown.drop_first() =~= seq![last]);
        assert(flat_of(grown) == grown[0] + seq!['\n'] + flat_of(grown.drop_first()));
        assert(flat_of(seq![last]) == last);
        assert(flat_of(grown) =~= flat_of(lines) + seq!['\n'] + last);
    } else {
        assert(grown.drop_first() =~= lines.drop_first().push(last));
        lemma_flat_push(lines.drop_first(), last);
        assert(flat_of(grown) == grown[0] + seq!['\n'] + flat_of(lines.drop_first().push(last)));
        assert(flat_of(grown) =~= flat_of(lines) + seq!['\n'] + last);
    }
}

/// Inserting a character at (line, col) and then deleting backward at
/// (line, col + 1) restores the original document.
pub proof fn lemma_insert_then_delete_before(
    lines: Seq<Seq<char>>,
    line: int,
    col: int,
    ch: char,
)
    requires
        0 <= line < lines.len(),
        0 <= col <= lines[line].len(),
    ensures
        line_splice(
            line_splice(lines, line, col, col, seq![ch]),
            line,
            col,
            col + 1,
            Seq::empty(),
        ) == lines,
{
    let mid = line_splice(lines, line, col, col, seq![ch]);
    assert(mid[line] == lines[line].take(col) + seq![ch] + lines[line].skip(col));
    assert(mid[line].take(col) =~= lines[line].take(col));
    assert(mid[line].skip(col + 1) =~= lines[line].skip(col));
    assert(mid[line].take(col) + Seq::<char>::empty() + mid[line].skip(col + 1) =~= lines[line]);
    assert(line_splice(mid, line, col, col + 1, Seq::empty()) =~= lines);
}

/// Relies on `String::from` on a `char`: the returned string holds exactly
/// that one character.
#[verifier::external_body]
pub(crate) fn char_string(c: char) -> (r: String)
    ensures
        r@ == seq![c],
{
    String::from(c)
}

impl TextBuffer {
    /// Document invariant: at least one line, and no line holds a line break.
    pub open spec fn wf(&self) -> bool {
        lines_wf(self@)
    }

    /// An empty document: a single empty line.
    pub fn new() -> (r: TextBuffer)
        ensures
            r.wf(),
            r@ =~= seq![Seq::<char>::empty()],
    {
        let mut lines: Vec<String> = Vec::new();
        lines.push(String::new());
        let r = TextBuffer { lines };
        proof {
            assert(r@ =~= seq![Seq::<char>::empty()]);
        }
        r
    }

    pub fn line_count(&self) -> (n: usize)
        ensures
            n == self@.len(),
    {
        self.lines.len()
    }

    /// Character length of one line.
    pub fn line_len(&self, i: usize) -> (n: usize)
        requires
            i < self@.len(),
        ensures
            n == self@[i as int].len(),
    {
        self.lines[i].as_str().unicode_len()
    }

    /// Replace the characters `[a, b)` of one line by `mid`.
    fn splice_line(&mut self, line: usize, a: usize, b: usize, mid: &str)
        requires
            old(self).wf(),
            line < old(self)@.len(),
            a <= b <= old(self)@[line as int].len(),
            !mid@.contains('\n'),
        ensures
            final(self).wf(),
            final(self)@ == line_splice(old(self)@, line as int, a as int, b as int, mid@),
    {
        let ghost lines0 = self@;
        let ghost ln = self@[line as int];
        let n = self.lines[line].as_str().unicode_len();
        let mut t = self.lines[line].as_str().substring_char(0, a).to_owned();
        t.append(mid);
        t.append(self.lines[line].as_str().substring_char(b, n));
        proof {
            lemma_no_nl_subrange(ln, 0, a as int);
            lemma_no_nl_subrange(ln, b as int, ln.len() as int);
            lemma_no_nl_concat(ln.take(a as int), mid@);
            lemma_no_nl_concat(ln.take(a as int) + mid@, ln.skip(b as int));
            assert(t@ == ln.take(a as int) + mid@ + ln.skip(b as int));
        }
        self.lines.set(line, t);
        proof {
            assert(self@ =~= line_splice(lines0, line as int, a as int, b as int, mid@));
            assert forall|i: int| 0 <= i < self@.len() implies !(#[trigger] self@[i]).contains(
                '\n',
            ) by {
                if i != line {
                    assert(self@[i] == lines0[i]);
                }
            }
        }
    }

    /// Append an empty line when `line` addresses the slot one past the end
    /// (the defensive growth step of the insertion operations).
    fn grow_to(&mut self, line: usize)
        requires
            old(self).wf(),
            line <= old(self)@.len(),
        ensures
            final(self).wf(),
            final(self)@ == padded_to(old(self)@, line as int),
            line < final(self)@.len(),
            line == old(self)@.len() ==> final(self)@[line as int] == Seq::<char>::empty(),
    {
        let ghost lines0 = self@;
        if line == self.lines.len() {
            self.lines.push(String::new());
            proof {
                assert(self@ =~= lines0.push(Seq::<char>::empty()));
                assert forall|i: int| 0 <= i < self@.len() implies !(#[trigger] self@[i]).contains(
                    '\n',
                ) by {
                    if i < lines0.len() {
                        assert(self@[i] == lines0[i]);
                    } else {
                        assert(self@[i].len() == 0);
                        if self@[i].contains('\n') {
                            let j = choose|j: int|
                                0 <= j < self@[i].len() && self@[i][j] == '\n';
                        }
                    }
                }
            }
        }
    }

    /// Insert one character at column `col` of line `line`. When `line`
    /// addresses the slot one past the last line, a new empty line is
    /// appended first.
    pub fn insert(&mut self, line: usize, col: usize, ch: char)
        requires
            old(self).wf(),
            ch != '\n',
            line <= old(self)@.len(),
            col <= if (line as int) < old(self)@.len() {
                old(self)@[line as int].len() as int
            } else {
                0
            },
        ensures
            final(self).wf(),
            final(self)@ == line_splice(
                padded_to(old(self)@, line as int),
                line as int,
                col as int,
                col as int,
                seq![ch],
            ),
    {
        self.grow_to(line);
        let cs = char_string(ch);
        proof {
            if cs@.contains('\n') {
                let j = choose|j: int| 0 <= j < cs@.len() && cs@[j] == '\n';
                assert(cs@[j] == '\n');
                assert(cs@[j] == ch);
            }
        }
        self.splice_line(line, col, col, cs.as_str());
    }

    /// Split line `line` at column `col` into two lines, in place. When
    /// `line` addresses the slot one past the last line, a new empty line is
    /// appended first.
    pub fn insert_line_break(&mut self, line: usize, col: usize)
        requires
            old(self).wf(),
            line <= old(self)@.len(),
            col <= if (line as int) < old(self)@.len() {
                old(self)@[line as int].len() as int
            } else {
                0
            },
        ensures
            final(self).wf(),
            final(self)@ == split_line_spec(padded_to(old(self)@, line as int), line as int, col as int),
    {
        self.grow_to(line);
        let ghost lines0 = self@;
        let ghost ln = self@[line as int];
        let n = self.lines[line].as_str().unicode_len();
        let cnt = self.lines.len();
        assert(line < cnt);
        let right = self.lines[line].as_str().substring_char(col, n).to_owned();
        let left = self.lines[line].as_str().substring_char(0, col).to_owned();
        self.lines.set(line, left);
        self.lines.insert(line + 1, right);
        proof {
            lemma_no_nl_subrange(ln, 0, col as int);
            lemma_no_nl_subrange(ln, col as int, ln.len() as int);
            let result = split_line_spec(lines0, line as int, col as int);
            assert(self@ =~= result);
            assert forall|i: int| 0 <= i < self@.len() implies !(#[trigger] self@[i]).contains(
                '\n',
            ) by {
                if i < line {
                    assert(self@[i] == lines0[i]);
                } else if i == line {
                    assert(self@[i] == ln.take(col as int));
                } else if i == line + 1 {
                    assert(self@[i] == ln.skip(col as int));
                } else {
                    assert(self@[i] == lines0[i - 1]);
                }
            }
        }
    }

    /// Merge line `line + 1` onto the end of line `line` and remove it.
    pub fn join_with_next(&mut self, line: usize)
        requires
            old(self).wf(),
            line + 1 < old(self)@.len(),
        ensures
            final(self).wf(),
            final(self)@ == join_lines_spec(old(self)@, line as int),
    {
        let ghost lines0 = self@;
        let cnt = self.lines.len();
        assert(line + 1 < cnt);
        let next = self.lines.remove(line + 1);
        let mut t = self.lines[line].clone();
        t.append(next.as_str());
        self.lines.set(line, t);
        proof {
            lemma_no_nl_concat(lines0[line as int], lines0[line as int + 1]);
            assert(self@ =~= join_lines_spec(lines0, line as int));
            assert forall|i: int| 0 <= i < self@.len() implies !(#[trigger] self@[i]).contains(
                '\n',
            ) by {
                if i < line {
                    assert(self@[i] == lines0[i]);
                } else if i == line {
                    assert(self@[i] == lines0[i] + lines0[i + 1]);
                } else {
                    assert(self@[i] == lines0[i + 1]);
                }
            }
        }
    }

    /// Backward deletion at (line, col): removes the character before the
    /// column, or at column 0 merges the line onto the previous one. A no-op
    /// at the document start.
    pub fn delete_before(&mut self, line: usize, col: usize)
        requires
            old(self).wf(),
            line < old(self)@.len(),
            col <= old(self)@[line as int].len(),
        ensures
            final(self).wf(),
            col > 0 ==> final(self)@ == line_splice(
                old(self)@,
                line as int,
                col - 1,
                col as int,
                Seq::empty(),
            ),
            col == 0 && line > 0 ==> final(self)@ == join_lines_spec(old(self)@, line - 1)
                && final(self)@.len() == old(self)@.len() - 1
                && final(self)@[line - 1] == old(self)@[line - 1] + old(self)@[line as int],
            col == 0 && line == 0 ==> final(self)@ == old(self)@,
    {
        if col > 0 {
            proof {
                reveal_strlit("");
                assert(!""@.contains('\n'));
            }
            self.splice_line(line, col - 1, col, "");
        } else if line > 0 {
            self.join_with_next(line - 1);
        }
    }

    /// Forward deletion at (line, col): removes the character at the column,
    /// or at the line's end merges the next line onto this one. A no-op at
    /// the document end.
    pub fn delete_at(&mut self, line: usize, col: usize)
        requires
            old(self).wf(),
            line < old(self)@.len(),
            col <= old(self)@[line as int].len(),
        ensures
            final(self).wf(),
            col < old(self)@[line as int].len() ==> final(self)@ == line_splice(
                old(self)@,
                line as int,
                col as int,
                col + 1,
                Seq::empty(),
            ),
            col == old(self)@[line as int].len() && line + 1 < old(self)@.len() ==> final(self)@
                == join_lines_spec(old(self)@, line as int),
            col == old(self)@[line as int].len() && line + 1 >= old(self)@.len() ==> final(self)@
                == old(self)@,
    {
        let n = self.line_len(line);
        if col < n {
            proof {
                reveal_strlit("");
                assert(!""@.contains('\n'));
            }
            self.splice_line(line, col, col + 1, "");
        } else {
            let cnt = self.lines.len();
            if line < cnt - 1 {
                self.join_with_next(line);
            }
        }
    }

    /// The whole document as one text, lines joined with `'\n'`.
    pub fn to_flat_text(&self) -> (r: String)
        ensures
            r@ == flat_of(self@),
    {
        let mut out = String::new();
        let mut k: usize = 0;
        proof {
            assert(self@.take(0) =~= Seq::<Seq<char>>::empty());
        }
        while k < self.lines.len()
            invariant
                k <= self@.len(),
                self@.len() == self.lines@.len(),
                out@ == flat_of(self@.take(k as int)),
            decreases self@.len() - k,
        {
            if k > 0 {
                proof {
                    reveal_strlit("\n");
                    assert("\n"@ =~= seq!['\n']);
                }
                out.append("\n");
            }
            out.append(self.lines[k].as_str());
            proof {
                assert(self@.take(k + 1) =~= self@.take(k as int).push(self@[k as int]));
                if k > 0 {
                    lemma_flat_push(self@.take(k as int), self@[k as int]);
                } else {
                    assert(flat_of(self@.take(1)) == self@.take(1)[0]);
                    assert(out@ =~= flat_of(self@.take(1)));
                }
            }
            k = k + 1;
        }
        proof {
            assert(self@.take(self@.len() as int) =~= self@);
        }
        out
    }

    /// The document a whole text denotes: the text split at each line
    /// break. Any text is accepted; the empty text gives one empty line.
    pub fn from_text(s: &str) -> (r: TextBuffer)
        ensures
            r.wf(),
            r@ == lines_of(s@),
    {
        let n = s.unicode_len();
        let mut lines: Vec<String> = Vec::new();
        let mut start: usize = 0;
        proof {
            assert(s@.skip(0) =~= s@);
            assert(lines_of(s@) =~= lines@.map_values(|t: String| t@) + lines_of(s@.skip(0)));
        }
        loop
            invariant_except_break
                start <= n,
                n == s@.len(),
                lines_of(s@) == lines@.map_values(|t: String| t@) + lines_of(
                    s@.skip(start as int),
                ),
            ensures
                lines_of(s@) == lines@.map_values(|t: String| t@),
            decreases n - start + 1,
        {
            let ghost lines0 = lines@;
            let mut j = start;
            while j < n && s.get_char(j) != '\n'
                invariant
                    start <= j <= n,
                    n == s@.len(),
                    forall|k: int| start <= k < j ==> s@[k] != '\n',
                decreases n - j,
            {
                j = j + 1;
            }
            let ghost piece = s@.subrange(start as int, j as int);
            proof {
                if piece.contains('\n') {
                    let i = choose|i: int| 0 <= i < piece.len() && piece[i] == '\n';
                    assert(piece[i] == s@[start + i]);
                }
            }
            let owned = s.substring_char(start, j).to_owned();
            lines.push(owned);
            proof {
                assert(lines@.map_values(|t: String| t@) =~= lines0.map_values(
                    |t: String| t@,
                ).push(piece));
            }
            if j == n {
                proof {
                    assert(s@.skip(start as int) =~= piece);
                    lemma_lines_of_single(piece);
                    assert(lines_of(s@) =~= lines@.map_values(|t: String| t@));
                }
                break;
            }
            proof {
                assert(s@[j as int] == '\n');
                assert(s@.skip(start as int) =~= piece + seq!['\n'] + s@.skip(j + 1));
                lemma_lines_of_prepend(piece, s@.skip(j + 1));
                assert(lines_of(s@) =~= lines@.map_values(|t: String| t@) + lines_of(
                    s@.skip(j + 1),
                ));
            }
            start = j + 1;
        }
        let r = TextBuffer { lines };
        proof {
            lemma_lines_of_wf(s@);
        }
        r
    }

    /// Insert a piece of line-break-free text at (line, col).
    pub fn insert_text(&mut self, line: usize, col: usize, text: &str)
        requires
            old(self).wf(),
            line < old(self)@.len(),
            col <= old(self)@[line as int].len(),
            !text@.contains('\n'),
        ensures
            final(self).wf(),
            final(self)@ == line_splice(
                old(self)@,
                line as int,
                col as int,
                col as int,
                text@,
            ),
    {
        self.splice_line(line, col, col, text);
    }
}

} // verus!
