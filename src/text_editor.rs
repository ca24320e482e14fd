use vstd::prelude::*;

use crate::text::{chars_of, join_lines, joined, string_of};

verus! {

/// Columns a line is laid out in.
pub const EDITOR_WIDTH: usize = 20;

/// Character drawn at the cursor.
pub const CURSOR_MARK: char = '\u{2588}';

/// A line-based text editor: the lines, the messages waiting to be shown and
/// the cursor as (line, column), columns counted in characters.
pub struct TextEditor {
    pub width: usize,
    pub lines: Vec<String>,
    pub notifications: Vec<String>,
    pub cursor_pos: (usize, usize),
}

/// The characters of each line.
pub open spec fn text_of(lines: Seq<String>) -> Seq<Seq<char>> {
    lines.map_values(|s: String| s@)
}

/// The lines of `s`: split at each line feed, a carriage return just before a
/// line feed dropped; text ending in a line feed ends in an empty line.
pub open spec fn lines_of(s: Seq<char>) -> Seq<Seq<char>>
    decreases s.len(),
{
    if s.len() == 0 {
        seq![Seq::<char>::empty()]
    } else {
        let prev = lines_of(s.drop_last());
        let last = prev.last();
        if s.last() == '\n' {
            let trimmed = if last.len() > 0 && last.last() == '\r' {
                last.drop_last()
            } else {
                last
            };
            prev.update(prev.len() - 1, trimmed).push(Seq::<char>::empty())
        } else {
            prev.update(prev.len() - 1, last.push(s.last()))
        }
    }
}

/// A line as drawn: with a cursor at column `c`, the character there (or the
/// end of the line) is replaced by the cursor mark.
pub open spec fn drawn_line(line: Seq<char>, cursor: Option<int>) -> Seq<char> {
    match cursor {
        Some(c) => if c < line.len() {
            line.update(c, CURSOR_MARK)
        } else {
            line.push(CURSOR_MARK)
        },
        None => line,
    }
}

/// A line cut into pieces of `width` characters, the last one possibly
/// shorter; a width of zero leaves the line whole.
pub open spec fn wrapped(line: Seq<char>, width: nat) -> Seq<Seq<char>>
    decreases line.len(),
{
    if width == 0 || line.len() <= width {
        seq![line]
    } else {
        seq![line.subrange(0, width as int)] + wrapped(line.subrange(width as int, line.len() as int), width)
    }
}

/// The whole text as drawn: each line, with the cursor mark in place when
/// `with_cursor` is set, cut to the width; the pieces separated by a line
/// feed and a carriage return.
pub open spec fn drawn(
    lines: Seq<Seq<char>>,
    cursor: (usize, usize),
    with_cursor: bool,
    width: nat,
) -> Seq<char> {
    joined(
        Seq::new(
            lines.len(),
            |i: int|
                wrapped(
                    drawn_line(
                        lines[i],
                        if with_cursor && i == cursor.0 {
                            Some(cursor.1 as int)
                        } else {
                            None
                        },
                    ),
                    width,
                ),
        ).flatten_alt(),
        seq!['\n', '\r'],
    )
}

/// Appends to `pieces` the pieces of `line` cut to `width`.
fn wrap_into(line: &Vec<char>, width: usize, pieces: &mut Vec<Vec<char>>)
    ensures
        final(pieces)@.map_values(|l: Vec<char>| l@) == old(pieces)@.map_values(|l: Vec<char>| l@)
            + wrapped(line@, width as nat),
{
    let ghost base = pieces@.map_values(|l: Vec<char>| l@);
    let ghost mut done: Seq<Seq<char>> = Seq::empty();
    let n = line.len();
    let mut start: usize = 0;
    assert(line@.subrange(0, n as int) =~= line@);
    assert(base + done =~= base);
    assert(done + wrapped(line@, width as nat) =~= wrapped(line@, width as nat));
    while width > 0 && n - start > width
        invariant
            n == line@.len(),
            start <= n,
            pieces@.map_values(|l: Vec<char>| l@) == base + done,
            wrapped(line@, width as nat) == done + wrapped(line@.subrange(start as int, n as int), width as nat),
        decreases n - start,
    {
        let mut piece: Vec<char> = Vec::new();
        let mut k: usize = 0;
        while k < width
            invariant
                n == line@.len(),
                k <= width,
                start + width <= n,
                piece@ == line@.subrange(start as int, start + k),
            decreases width - k,
        {
            piece.push(line[start + k]);
            k = k + 1;
            assert(piece@ =~= line@.subrange(start as int, start + k));
        }
        let ghost prev_view = pieces@.map_values(|l: Vec<char>| l@);
        proof {
            let rest = line@.subrange(start as int, n as int);
            assert(rest.subrange(0, width as int) =~= piece@);
            assert(rest.subrange(width as int, rest.len() as int) =~= line@.subrange(start + width, n as int));
            assert(wrapped(rest, width as nat) == seq![piece@] + wrapped(line@.subrange(start + width, n as int), width as nat));
            assert(done + (seq![piece@] + wrapped(line@.subrange(start + width, n as int), width as nat)) =~= done.push(piece@)
                + wrapped(line@.subrange(start + width, n as int), width as nat));
            done = done.push(piece@);
        }
        pieces.push(piece);
        assert(pieces@.map_values(|l: Vec<char>| l@) =~= prev_view.push(piece@));
        assert(base + done =~= prev_view.push(piece@));
        start = start + width;
    }
    let mut piece: Vec<char> = Vec::new();
    let mut k: usize = start;
    while k < n
        invariant
            n == line@.len(),
            start <= k <= n,
            piece@ == line@.subrange(start as int, k as int),
        decreases n - k,
    {
        piece.push(line[k]);
        k = k + 1;
        assert(piece@ =~= line@.subrange(start as int, k as int));
    }
    let ghost prev_view = pieces@.map_values(|l: Vec<char>| l@);
    proof {
        let rest = line@.subrange(start as int, n as int);
        assert(piece@ =~= rest);
        assert(wrapped(rest, width as nat) == seq![rest]);
    }
    pieces.push(piece);
    assert(pieces@.map_values(|l: Vec<char>| l@) =~= prev_view.push(piece@));
    assert(base + wrapped(line@, width as nat) =~= prev_view.push(piece@));
}

impl TextEditor {
    /// The cursor stands on a line, at most just past its last character.
    pub open spec fn wf(&self) -> bool {
        &&& self.lines@.len() >= 1
        &&& self.cursor_pos.0 < self.lines@.len()
        &&& self.cursor_pos.1 <= self.lines@[self.cursor_pos.0 as int]@.len()
    }

    /// An editor with one empty line.
    pub fn new() -> (r: TextEditor)
        ensures
            r.wf(),
            text_of(r.lines@) == seq![Seq::<char>::empty()],
            r.cursor_pos == (0usize, 0usize),
            r.notifications@.len() == 0,
            r.width == EDITOR_WIDTH,
    {
        let r = TextEditor {
            width: EDITOR_WIDTH,
            lines: vec![String::new()],
            notifications: Vec::new(),
            cursor_pos: (0, 0),
        };
        assert(text_of(r.lines@) =~= seq![Seq::<char>::empty()]);
        r
    }

    /// An editor holding `initial`, the cursor at the end of its last line.
    pub fn build(initial: &str) -> (r: TextEditor)
        ensures
            r.wf(),
            text_of(r.lines@) == lines_of(initial@),
            r.cursor_pos.0 == r.lines@.len() - 1,
            r.cursor_pos.1 == r.lines@[r.lines@.len() - 1]@.len(),
            r.notifications@.len() == 0,
            r.width == EDITOR_WIDTH,
    {
        let chars = chars_of(initial);
        let mut parts: Vec<Vec<char>> = vec![Vec::new()];
        let mut i: usize = 0;
        assert(chars@.subrange(0, 0) =~= Seq::<char>::empty());
        assert(parts@.map_values(|l: Vec<char>| l@) =~= lines_of(Seq::<char>::empty()));
        while i < chars.len()
            invariant
                i <= chars@.len(),
                parts@.len() >= 1,
                parts@.map_values(|l: Vec<char>| l@) == lines_of(chars@.subrange(0, i as int)),
            decreases chars.len() - i,
        {
            let ghost prefix = chars@.subrange(0, i + 1);
            assert(prefix.drop_last() =~= chars@.subrange(0, i as int));
            let c = chars[i];
            if c == '\n' {
                let mut last = parts.pop().unwrap();
                let k = last.len();
                if k > 0 && last[k - 1] == '\r' {
                    last.pop();
                }
                parts.push(last);
                parts.push(Vec::new());
            } else {
                let mut last = parts.pop().unwrap();
                last.push(c);
                parts.push(last);
            }
            assert(parts@.map_values(|l: Vec<char>| l@) =~= lines_of(prefix));
            i = i + 1;
        }
        assert(chars@.subrange(0, i as int) =~= initial@);
        let mut lines: Vec<String> = Vec::new();
        let mut j: usize = 0;
        while j < parts.len()
            invariant
                j <= parts@.len(),
                lines@.len() == j,
                forall|x: int| 0 <= x < j ==> #[trigger] lines@[x]@ == parts@[x]@,
            decreases parts.len() - j,
        {
            lines.push(string_of(&parts[j]));
            j = j + 1;
        }
        assert(text_of(lines@) =~= parts@.map_values(|l: Vec<char>| l@));
        let last = lines.len() - 1;
        let col = chars_of(lines[last].as_str()).len();
        TextEditor { width: EDITOR_WIDTH, lines, notifications: Vec::new(), cursor_pos: (last, col) }
    }

    /// Number of characters on line `line`.
    fn get_line_length(&self, line: usize) -> (r: usize)
        requires
            line < self.lines@.len(),
        ensures
            r == self.lines@[line as int]@.len(),
    {
        self.lines[line].as_str().unicode_len()
    }

    /// Erases the character before the cursor; at the start of a line, joins
    /// the line to the one above; at the start of the text, does nothing.
    pub fn handle_backspace(&mut self)
        requires
            old(self).wf(),
        ensures
            final(self).wf(),
            final(self).width == old(self).width,
            final(self).notifications == old(self).notifications,
            ({
                let (l, c) = old(self).cursor_pos;
                let t = text_of(old(self).lines@);
                if c > 0 {
                    text_of(final(self).lines@) == t.update(l as int, t[l as int].remove(c - 1))
                        && final(self).cursor_pos == (l, (c - 1) as usize)
                } else if l > 0 {
                    text_of(final(self).lines@) == t.update(l - 1, t[l - 1] + t[l as int]).remove(
                        l as int,
                    ) && final(self).cursor_pos == ((l - 1) as usize, t[l - 1].len() as usize)
                } else {
                    final(self).lines@ == old(self).lines@ && final(self).cursor_pos == old(
                        self,
                    ).cursor_pos
                }
            }),
    {
        let (line_idx, col_idx) = self.cursor_pos;
        let ghost t = text_of(self.lines@);
        if col_idx > 0 {
            let mut chars = chars_of(self.lines[line_idx].as_str());
            chars.remove(col_idx - 1);
            let s = string_of(&chars);
            self.lines.set(line_idx, s);
            self.cursor_pos = (line_idx, col_idx - 1);
            assert(text_of(self.lines@) =~= t.update(line_idx as int, t[line_idx as int].remove(col_idx - 1)));
        } else if line_idx > 0 {
            let mut joined_chars = chars_of(self.lines[line_idx - 1].as_str());
            let prev_len = joined_chars.len();
            let rest = chars_of(self.lines[line_idx].as_str());
            let mut k: usize = 0;
            while k < rest.len()
                invariant
                    k <= rest@.len(),
                    joined_chars@ == t[line_idx - 1] + rest@.subrange(0, k as int),
                decreases rest.len() - k,
            {
                joined_chars.push(rest[k]);
                k = k + 1;
                assert(joined_chars@ =~= t[line_idx - 1] + rest@.subrange(0, k as int));
            }
            assert(rest@.subrange(0, k as int) =~= rest@);
            let s = string_of(&joined_chars);
            self.lines.set(line_idx - 1, s);
            self.lines.remove(line_idx);
            self.cursor_pos = (line_idx - 1, prev_len);
            assert(text_of(self.lines@) =~= t.update(line_idx - 1, t[line_idx - 1] + t[line_idx as int]).remove(
                line_idx as int,
            ));
        }
    }

    /// Puts `c` at the cursor and moves the cursor past it.
    pub fn insert_char(&mut self, c: char)
        requires
            old(self).wf(),
        ensures
            final(self).wf(),
            final(self).width == old(self).width,
            final(self).notifications == old(self).notifications,
            ({
                let (l, col) = old(self).cursor_pos;
                let t = text_of(old(self).lines@);
                text_of(final(self).lines@) == t.update(l as int, t[l as int].insert(col as int, c))
                    && final(self).cursor_pos == (l, (col + 1) as usize)
            }),
    {
        let (line_idx, col_idx) = self.cursor_pos;
        let ghost t = text_of(self.lines@);
        let mut chars = chars_of(self.lines[line_idx].as_str());
        chars.insert(col_idx, c);
        let n = chars.len();
        let s = string_of(&chars);
        self.lines.set(line_idx, s);
        self.cursor_pos = (line_idx, col_idx + 1);
        assert(text_of(self.lines@) =~= t.update(line_idx as int, t[line_idx as int].insert(col_idx as int, c)));
    }

    /// Splits the line at the cursor; the cursor goes to the start of the new line.
    pub fn handle_newline(&mut self)
        requires
            old(self).wf(),
        ensures
            final(self).wf(),
            final(self).width == old(self).width,
            final(self).notifications == old(self).notifications,
            ({
                let (l, c) = old(self).cursor_pos;
                let t = text_of(old(self).lines@);
                let line = t[l as int];
                text_of(final(self).lines@) == t.update(l as int, line.subrange(0, c as int)).insert(
                    l + 1,
                    line.subrange(c as int, line.len() as int),
                ) && final(self).cursor_pos == ((l + 1) as usize, 0usize)
            }),
    {
        let (line_idx, col_idx) = self.cursor_pos;
        let ghost t = text_of(self.lines@);
        let chars = chars_of(self.lines[line_idx].as_str());
        let mut head: Vec<char> = Vec::new();
        let mut tail: Vec<char> = Vec::new();
        let mut k: usize = 0;
        while k < chars.len()
            invariant
                k <= chars@.len(),
                col_idx <= chars@.len(),
                k <= col_idx ==> head@ == chars@.subrange(0, k as int) && tail@.len() == 0,
                k > col_idx ==> head@ == chars@.subrange(0, col_idx as int) && tail@ == chars@.subrange(
                    col_idx as int,
                    k as int,
                ),
            decreases chars.len() - k,
        {
            if k < col_idx {
                head.push(chars[k]);
            } else {
                tail.push(chars[k]);
            }
            k = k + 1;
            assert(k <= col_idx ==> head@ =~= chars@.subrange(0, k as int));
            assert(k > col_idx ==> tail@ =~= chars@.subrange(col_idx as int, k as int));
        }
        proof {
            if k <= col_idx {
                assert(tail@ =~= chars@.subrange(col_idx as int, k as int));
            }
        }
        let n = self.lines.len();
        self.lines.set(line_idx, string_of(&head));
        self.lines.insert(line_idx + 1, string_of(&tail));
        self.cursor_pos = (line_idx + 1, 0);
        assert(text_of(self.lines@) =~= t.update(line_idx as int, t[line_idx as int].subrange(0, col_idx as int)).insert(
            line_idx + 1,
            t[line_idx as int].subrange(col_idx as int, t[line_idx as int].len() as int),
        ));
    }

    /// Moves the cursor one line up, no further right than that line's end.
    pub fn cursor_up(&mut self)
        requires
            old(self).wf(),
        ensures
            final(self).wf(),
            final(self).lines == old(self).lines,
            final(self).width == old(self).width,
            final(self).notifications == old(self).notifications,
            ({
                let (l, c) = old(self).cursor_pos;
                if l > 0 {
                    let up = old(self).lines@[l - 1]@.len();
                    final(self).cursor_pos == ((l - 1) as usize, if c >= up {
                        up as usize
                    } else {
                        c
                    })
                } else {
                    final(self).cursor_pos == old(self).cursor_pos
                }
            }),
    {
        if self.cursor_pos.0 > 0 {
            self.cursor_pos.0 = self.cursor_pos.0 - 1;
            let prev_line_len = self.get_line_length(self.cursor_pos.0);
            if self.cursor_pos.1 >= prev_line_len {
                self.cursor_pos.1 = prev_line_len;
            }
        }
    }

    /// Moves the cursor one line down, no further right than that line's end.
    pub fn cursor_down(&mut self)
        requires
            old(self).wf(),
        ensures
            final(self).wf(),
            final(self).lines == old(self).lines,
            final(self).width == old(self).width,
            final(self).notifications == old(self).notifications,
            ({
                let (l, c) = old(self).cursor_pos;
                if l + 1 < old(self).lines@.len() {
                    let down = old(self).lines@[l + 1]@.len();
                    final(self).cursor_pos == ((l + 1) as usize, if c > down {
                        down as usize
                    } else {
                        c
                    })
                } else {
                    final(self).cursor_pos == old(self).cursor_pos
                }
            }),
    {
        let (line_idx, col_idx) = self.cursor_pos;
        if line_idx < self.lines.len() - 1 {
            let next_line_len = self.get_line_length(line_idx + 1);
            if col_idx > next_line_len {
                self.cursor_pos.1 = next_line_len;
            }
            self.cursor_pos.0 = self.cursor_pos.0 + 1;
        }
    }

    /// Moves the cursor one character left, to the end of the line above from
    /// a line's start.
    pub fn cursor_left(&mut self)
        requires
            old(self).wf(),
        ensures
            final(self).wf(),
            final(self).lines == old(self).lines,
            final(self).width == old(self).width,
            final(self).notifications == old(self).notifications,
            ({
                let (l, c) = old(self).cursor_pos;
                if c > 0 {
                    final(self).cursor_pos == (l, (c - 1) as usize)
                } else if l > 0 {
                    final(self).cursor_pos == ((l - 1) as usize, old(self).lines@[l - 1]@.len() as usize)
                } else {
                    final(self).cursor_pos == old(self).cursor_pos
                }
            }),
    {
        let (line_idx, col_idx) = self.cursor_pos;
        if col_idx > 0 {
            self.cursor_pos.1 = self.cursor_pos.1 - 1;
        } else if line_idx > 0 {
            self.cursor_pos.0 = self.cursor_pos.0 - 1;
            self.cursor_pos.1 = self.get_line_length(line_idx - 1);
        }
    }

    /// Moves the cursor one character right, to the start of the next line
    /// from a line's end.
    pub fn cursor_right(&mut self)
        requires
            old(self).wf(),
        ensures
            final(self).wf(),
            final(self).lines == old(self).lines,
            final(self).width == old(self).width,
            final(self).notifications == old(self).notifications,
            ({
                let (l, c) = old(self).cursor_pos;
                if c < old(self).lines@[l as int]@.len() {
                    final(self).cursor_pos == (l, (c + 1) as usize)
                } else if l + 1 < old(self).lines@.len() {
                    final(self).cursor_pos == ((l + 1) as usize, 0usize)
                } else {
                    final(self).cursor_pos == old(self).cursor_pos
                }
            }),
    {
        let (line_idx, col_idx) = self.cursor_pos;
        if col_idx < self.get_line_length(line_idx) {
            self.cursor_pos.1 = self.cursor_pos.1 + 1;
        } else if line_idx < self.lines.len() - 1 {
            self.cursor_pos = (line_idx + 1, 0);
        }
    }

    /// The text as drawn: lines cut to the editor's width, separated by a
    /// line feed and a carriage return, with the cursor mark in place when
    /// `with_cursor` is set.
    pub fn content_to_string(&self, with_cursor: bool) -> (r: String)
        ensures
            r@ == drawn(text_of(self.lines@), self.cursor_pos, with_cursor, self.width as nat),
    {
        let ghost t = text_of(self.lines@);
        let ghost want = Seq::new(
            t.len(),
            |i: int|
                drawn_line(
                    t[i],
                    if with_cursor && i == self.cursor_pos.0 {
                        Some(self.cursor_pos.1 as int)
                    } else {
                        None
                    },
                ),
        );
        let mut parts: Vec<Vec<char>> = Vec::new();
        let mut i: usize = 0;
        while i < self.lines.len()
            invariant
                i <= self.lines@.len(),
                t == text_of(self.lines@),
                want.len() == t.len(),
                forall|x: int|
                    0 <= x < t.len() ==> #[trigger] want[x] == drawn_line(
                        t[x],
                        if with_cursor && x == self.cursor_pos.0 {
                            Some(self.cursor_pos.1 as int)
                        } else {
                            None
                        },
                    ),
                parts@.len() == i,
                forall|x: int| 0 <= x < i ==> #[trigger] parts@[x]@ == want[x],
            decreases self.lines.len() - i,
        {
            let mut chars = chars_of(self.lines[i].as_str());
            assert(t[i as int] == self.lines@[i as int]@);
            let ghost line = chars@;
            assert(want[i as int] == drawn_line(
                line,
                if with_cursor && i == self.cursor_pos.0 {
                    Some(self.cursor_pos.1 as int)
                } else {
                    None
                },
            ));
            if with_cursor && i == self.cursor_pos.0 {
                let col = self.cursor_pos.1;
                if col < chars.len() {
                    chars.set(col, CURSOR_MARK);
                    assert(chars@ == line.update(col as int, CURSOR_MARK));
                } else {
                    chars.push(CURSOR_MARK);
                    assert(chars@ == line.push(CURSOR_MARK));
                }
            }
            assert(chars@ == want[i as int]);
            parts.push(chars);
            i = i + 1;
        }
        let ghost cut = Seq::new(t.len(), |x: int| wrapped(want[x], self.width as nat));
        let mut pieces: Vec<Vec<char>> = Vec::new();
        let mut j: usize = 0;
        while j < parts.len()
            invariant
                j <= parts@.len(),
                parts@.len() == t.len(),
                forall|x: int| 0 <= x < parts@.len() ==> #[trigger] parts@[x]@ == want[x],
                cut == Seq::new(t.len(), |x: int| wrapped(want[x], self.width as nat)),
                pieces@.map_values(|l: Vec<char>| l@) == cut.subrange(0, j as int).flatten_alt(),
            decreases parts.len() - j,
        {
            wrap_into(&parts[j], self.width, &mut pieces);
            proof {
                let c = cut.subrange(0, j + 1);
                assert(c.drop_last() =~= cut.subrange(0, j as int));
                assert(c.last() == wrapped(parts@[j as int]@, self.width as nat));
            }
            j = j + 1;
        }
        proof {
            assert(cut.subrange(0, j as int) =~= cut);
            let lines_view = text_of(self.lines@);
            assert(cut =~= Seq::new(
                lines_view.len(),
                |i: int|
                    wrapped(
                        drawn_line(
                            lines_view[i],
                            if with_cursor && i == self.cursor_pos.0 {
                                Some(self.cursor_pos.1 as int)
                            } else {
                                None
                            },
                        ),
                        self.width as nat,
                    ),
            ));
        }
        let sep = vec!['\n', '\r'];
        assert(sep@ =~= seq!['\n', '\r']);
        let out = join_lines(&pieces, &sep);
        string_of(&out)
    }

    /// The text as saved: lines separated by a line feed.
    pub fn content_to_save(&self) -> (r: String)
        ensures
            r@ == joined(text_of(self.lines@), seq!['\n']),
    {
        let mut parts: Vec<Vec<char>> = Vec::new();
        let mut i: usize = 0;
        while i < self.lines.len()
            invariant
                i <= self.lines@.len(),
                parts@.len() == i,
                forall|x: int| 0 <= x < i ==> #[trigger] parts@[x]@ == self.lines@[x]@,
            decreases self.lines.len() - i,
        {
            parts.push(chars_of(self.lines[i].as_str()));
            i = i + 1;
        }
        assert(parts@.map_values(|l: Vec<char>| l@) =~= text_of(self.lines@));
        let sep = vec!['\n'];
        assert(sep@ =~= seq!['\n']);
        let out = join_lines(&parts, &sep);
        string_of(&out)
    }

    /// Queues a message to be shown above the text.
    pub fn show_notification(&mut self, notification: &str)
        ensures
            final(self).lines == old(self).lines,
            final(self).cursor_pos == old(self).cursor_pos,
            final(self).width == old(self).width,
            final(self).notifications@.len() == old(self).notifications@.len() + 1,
            forall|i: int| 0 <= i < old(self).notifications@.len() ==> #[trigger] final(self).notifications@[i] == old(self).notifications@[i],
            final(self).notifications@.last()@ == notification@,
    {
        self.notifications.push(String::from_str(notification));
    }
}

} // verus!
