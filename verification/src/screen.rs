//! What the editor puts on the terminal: the buffer shown, with a bar left of the text, the
//! marks of the other clients' cursors, the command line or the message, and the cursor. The
//! screen is described as a list of drawing operations, which the caller carries out.
use vstd::prelude::*;

use crate::btep::{Color, Inhabitant};
use crate::editor::{byte_len, min, names_of, sat_sub, BufferKind, Client};
use crate::piece::{
    concat_text, lemma_concat_append, lemma_concat_single, lemma_concat_split, TableElem,
};
use crate::session::Mode;
use crate::utils::CursorPos;

verus! {

broadcast use vstd::seq::group_seq_axioms;

/// The character of the bar drawn left of the text.
pub const PIPE_CHAR: char = '│';

/// One drawing operation on the terminal.
#[derive(Debug, Clone, Copy, PartialEq, Eq, Structural)]
pub enum DrawOp {
    /// Clear the whole screen.
    ClearAll,
    /// Clear the line the cursor is on.
    ClearLine,
    /// Move the cursor to a column and a row.
    MoveTo(usize, usize),
    /// Move the cursor to the start of the next line.
    NextLine,
    /// Move the cursor to a column of its line.
    MoveToColumn(usize),
    /// Print a character.
    Print(char),
    /// Set the background color.
    Background(Color),
    /// Set the foreground color.
    Foreground(Color),
    /// Remember where the cursor is.
    SavePosition,
    /// Go back to where the cursor was remembered.
    RestorePosition,
}

/// What drawing a document keeps track of: the screen line reached, counting the lines
/// scrolled past; the column on it; the color to mark the next character with; where our own
/// cursor was found on the screen; how many lines wrapped before the cursor's line; and whether
/// the drawing went past the bottom of the screen.
pub struct Pen {
    pub line: int,
    pub col: int,
    pub mark: Option<Color>,
    pub own: Option<(int, int)>,
    pub wraps: int,
    pub stopped: bool,
}

/// What drawing a document depends on: the screen's size, how far it is scrolled, the row of
/// the cursor, our client number, the colors of the other clients, and their names by number.
pub struct Frame {
    pub width: int,
    pub height: int,
    pub offset: int,
    pub row: int,
    pub id: int,
    pub colors: Seq<Color>,
    pub names: Seq<Seq<char>>,
}

/// The pen before anything is drawn.
pub open spec fn start_pen() -> Pen {
    Pen { line: 0, col: 0, mark: None, own: None, wraps: 0, stopped: false }
}

/// The bar at the start of a screen line.
pub open spec fn bar() -> Seq<DrawOp> {
    seq![DrawOp::MoveToColumn(2), DrawOp::Print(PIPE_CHAR)]
}

/// Drawing the character `c`: a line break ends the line, marked with a colored blank when
/// another client's cursor stands there, and stops the drawing below the screen; a character
/// past the width wraps to the next line, and is lost there; any other character is printed,
/// marked when another client's cursor stands before it. Nothing shows above the screen.
pub open spec fn draw_char(p: Pen, c: char, f: Frame) -> (Pen, Seq<DrawOp>) {
    if p.stopped {
        (p, seq![])
    } else if c == '\n' {
        if p.line >= f.height + f.offset {
            (Pen { col: 0, stopped: true, ..p }, seq![])
        } else if p.line >= f.offset {
            let end = match p.mark {
                Some(x) => seq![
                    DrawOp::Background(x),
                    DrawOp::Print(' '),
                    DrawOp::NextLine,
                    DrawOp::Background(Color::Reset),
                ],
                None => seq![DrawOp::NextLine],
            };
            (Pen { line: p.line + 1, col: 0, mark: None, ..p }, end + bar())
        } else {
            (Pen { line: p.line + 1, col: 0, ..p }, seq![])
        }
    } else if p.line >= f.offset {
        if p.col >= f.width - 3 {
            let l = p.line + 1;
            (
                Pen {
                    line: l,
                    col: 0,
                    wraps: if f.row >= f.offset + l - p.wraps { p.wraps + 1 } else { p.wraps },
                    ..p
                },
                seq![DrawOp::NextLine] + bar(),
            )
        } else {
            let ops = match p.mark {
                Some(x) => seq![
                    DrawOp::Background(x),
                    DrawOp::Print(c),
                    DrawOp::Background(Color::Reset),
                ],
                None => seq![DrawOp::Print(c)],
            };
            (Pen { col: p.col + 1, mark: None, ..p }, ops)
        }
    } else {
        (p, seq![])
    }
}

/// The color of client `b` among the others' colors, or the default one when it has none.
pub open spec fn color_of(colors: Seq<Color>, b: int, id: int) -> Color {
    let i = if b < id {
        b
    } else {
        b - 1
    };
    if 0 <= i < colors.len() {
        colors[i]
    } else {
        Color::Reset
    }
}

/// The first two characters of the name of client `b`, none when it has no name.
pub open spec fn initials(names: Seq<Seq<char>>, b: int) -> Seq<char> {
    if 0 <= b < names.len() {
        names[b].take(if names[b].len() < 2 {
            names[b].len() as int
        } else {
            2
        })
    } else {
        seq![]
    }
}

/// The operations printing the characters `s`, one after the other.
pub open spec fn prints(s: Seq<char>) -> Seq<DrawOp>
    decreases s.len(),
{
    if s.len() == 0 {
        seq![]
    } else {
        prints(s.drop_last()).push(put(s.last()))
    }
}

/// The operation printing `c`.
pub open spec fn put(c: char) -> DrawOp {
    DrawOp::Print(c)
}

/// Drawing the end of a piece marked `buf`: where a client is typing, our own cursor is noted,
/// and another client's is marked in the margin, with its initials in its color, and in the
/// text by the color of the next character.
pub open spec fn draw_piece_end(p: Pen, buf: Option<(usize, bool)>, f: Frame) -> (Pen, Seq<DrawOp>) {
    if p.stopped {
        (p, seq![])
    } else {
        match buf {
            Some((b, true)) => if b == f.id {
                (
                    Pen {
                        own: if p.line >= f.offset {
                            Some((p.line - f.offset, p.col))
                        } else {
                            p.own
                        },
                        ..p
                    },
                    seq![DrawOp::Background(Color::Reset)],
                )
            } else {
                let color = color_of(f.colors, b as int, f.id);
                (
                    Pen { mark: Some(color), ..p },
                    seq![
                        DrawOp::SavePosition,
                        DrawOp::MoveToColumn(0),
                        DrawOp::Foreground(color),
                    ] + prints(initials(f.names, b as int)) + seq![
                        DrawOp::Foreground(Color::Reset),
                        DrawOp::RestorePosition,
                        DrawOp::Background(Color::Reset),
                    ],
                )
            },
            _ => (p, seq![]),
        }
    }
}

/// Drawing the characters `cs`, one after the other.
pub open spec fn draw_chars(p: Pen, cs: Seq<char>, f: Frame) -> (Pen, Seq<DrawOp>)
    decreases cs.len(),
{
    if cs.len() == 0 {
        (p, seq![])
    } else {
        let (p1, o1) = draw_chars(p, cs.drop_last(), f);
        let (p2, o2) = draw_char(p1, cs.last(), f);
        (p2, o1 + o2)
    }
}

/// Drawing the pieces `ps`, one after the other: the characters of each, then its end.
pub open spec fn draw_pieces(p: Pen, ps: Seq<TableElem>, f: Frame) -> (Pen, Seq<DrawOp>)
    decreases ps.len(),
{
    if ps.len() == 0 {
        (p, seq![])
    } else {
        let (p1, o1) = draw_pieces(p, ps.drop_last(), f);
        let (p2, o2) = draw_chars(p1, ps.last().text.text(), f);
        let (p3, o3) = draw_piece_end(p2, ps.last().buf, f);
        (p3, o1 + o2 + o3)
    }
}

/// The bar on each screen line below the text, `n` of them.
pub open spec fn empty_lines(n: int) -> Seq<DrawOp>
    decreases n,
{
    if n <= 0 {
        seq![]
    } else {
        empty_lines(n - 1) + seq![DrawOp::NextLine] + bar()
    }
}

/// The last line of the screen and the cursor: the command being written, or else the message
/// at the right end and the cursor where our own cursor was found, or where the buffer's cursor
/// is, moved down by the wrapped lines.
pub open spec fn draw_bottom(
    p: Pen,
    f: Frame,
    mode: Mode,
    info: Option<Seq<char>>,
    cursor: CursorPos,
) -> Seq<DrawOp> {
    match mode {
        Mode::Command(cmd) => seq![
            DrawOp::MoveTo(0, f.height as usize),
            DrawOp::ClearLine,
            DrawOp::Print(':'),
        ] + prints(cmd@),
        _ => {
            let message = match info {
                Some(s) => seq![
                    DrawOp::MoveTo(sat_sub(f.width, byte_len(s) as int) as usize, f.height as usize),
                    DrawOp::ClearLine,
                ] + prints(s),
                None => seq![],
            };
            let place = match p.own {
                Some((row, col)) => DrawOp::MoveTo((col + 3) as usize, row as usize),
                None => DrawOp::MoveTo(
                    min(cursor.col + 3, usize::MAX as int) as usize,
                    min(sat_sub(cursor.row as int, f.offset) + p.wraps, usize::MAX as int) as usize,
                ),
            };
            message + seq![place]
        },
    }
}

/// The screen for a document with pieces `ps`: the bar on the first line, the pieces, a mark
/// after the last character when another client's cursor stands there, the bar on the lines
/// below the text, and the bottom line with the cursor.
pub open spec fn document_screen(
    ps: Seq<TableElem>,
    f: Frame,
    mode: Mode,
    info: Option<Seq<char>>,
    cursor: CursorPos,
) -> Seq<DrawOp> {
    let (p, body) = draw_pieces(start_pen(), ps, f);
    let tail = match p.mark {
        Some(x) => seq![DrawOp::Background(x), DrawOp::Print(' '), DrawOp::Background(Color::Reset)],
        None => seq![],
    };
    seq![DrawOp::ClearAll, DrawOp::MoveTo(2, 0), DrawOp::Print(PIPE_CHAR)] + body + tail
        + empty_lines(f.height - p.line) + draw_bottom(p, f, mode, info, cursor)
}

/// The operations drawing the entries of a folder from entry `offset` on: each name on a line
/// of its own, a folder in dark blue with a slash after it.
pub open spec fn entries_ops(names: Seq<Seq<char>>, folders: Seq<bool>, offset: int) -> Seq<DrawOp>
    decreases names.len(),
{
    if names.len() <= offset || names.len() == 0 {
        seq![]
    } else {
        entries_ops(names.drop_last(), folders.drop_last(), offset) + entry_ops(
            names.last(),
            folders[names.len() - 1],
        )
    }
}

/// The operations drawing one entry of a folder.
pub open spec fn entry_ops(name: Seq<char>, folder: bool) -> Seq<DrawOp> {
    if folder {
        seq![DrawOp::Foreground(Color::DarkBlue)] + prints(name) + seq![
            DrawOp::Print('/'),
            DrawOp::Foreground(Color::Reset),
            DrawOp::NextLine,
        ]
    } else {
        prints(name) + seq![DrawOp::NextLine]
    }
}

/// The screen for a folder: its entries from `offset` on, and the cursor where it is.
pub open spec fn folder_screen(inhabitants: Seq<Inhabitant>, offset: int, cursor: CursorPos) -> Seq<
    DrawOp,
> {
    seq![DrawOp::ClearAll, DrawOp::MoveTo(0, 0)] + entries_ops(
        names_of(inhabitants),
        inhabitants.map_values(|i: Inhabitant| i.is_folder),
        offset,
    ) + seq![DrawOp::MoveTo(cursor.col, cursor.row)]
}

/// Appends the operations printing the characters of `s`.
fn push_prints(out: &mut Vec<DrawOp>, s: &Vec<char>)
    ensures
        final(out)@ == old(out)@ + prints(s@),
{
    let mut i: usize = 0;
    let ghost start = out@;
    proof {
        assert(start + prints(s@.take(0)) =~= start);
    }
    while i < s.len()
        invariant
            i <= s@.len(),
            out@ == start + prints(s@.take(i as int)),
        decreases s@.len() - i,
    {
        let ghost before = out@;
        out.push(DrawOp::Print(s[i]));
        proof {
            assert(s@.take(i + 1).drop_last() =~= s@.take(i as int));
            assert(s@.take(i + 1).last() == s@[i as int]);
            assert(prints(s@.take(i + 1)) == prints(s@.take(i as int)).push(put(s@[i as int])));
            assert(out@ =~= start + prints(s@.take(i + 1)));
        }
        i = i + 1;
    }
    proof {
        assert(s@.take(i as int) =~= s@);
    }
}

/// The characters of a string.
fn chars_of(s: &String) -> (r: Vec<char>)
    ensures
        r@ == s@,
{
    let mut out: Vec<char> = Vec::new();
    let st = s.as_str();
    let n = st.unicode_len();
    let mut i: usize = 0;
    while i < n
        invariant
            i <= n,
            n == st@.len(),
            st@ == s@,
            out@ == st@.take(i as int),
        decreases n - i,
    {
        out.push(st.get_char(i));
        proof {
            assert(st@.take(i + 1) =~= st@.take(i as int).push(st@[i as int]));
        }
        i = i + 1;
    }
    proof {
        assert(st@.take(n as int) =~= st@);
    }
    out
}

/// The names of the clients, as characters.
pub open spec fn name_chars(names: Seq<String>) -> Seq<Seq<char>> {
    names.map_values(|n: String| n@)
}

/// The frame for drawing the buffer shown by `client`, a document, on a screen `width` columns
/// wide and `height` lines high, with the clients' names by number.
pub open spec fn frame_of(client: Client, width: usize, height: usize, names: Seq<String>) -> Frame {
    let b = client.current();
    Frame {
        width: width as int,
        height: height as int,
        offset: b.line_offset as int,
        row: b.cursorpos.row as int,
        id: b.kind->id as int,
        colors: b.kind->colors@,
        names: name_chars(names),
    }
}

/// The message of the editor, as characters.
pub open spec fn info_chars(info: Option<String>) -> Option<Seq<char>> {
    match info {
        Some(s) => Some(s@),
        None => None,
    }
}

/// The pen held in plain numbers.
pub open spec fn pen_of(
    line: usize,
    col: usize,
    mark: Option<Color>,
    own: Option<(usize, usize)>,
    wraps: usize,
    stopped: bool,
) -> Pen {
    Pen {
        line: line as int,
        col: col as int,
        mark,
        own: match own {
            Some((r, c)) => Some((r as int, c as int)),
            None => None,
        },
        wraps: wraps as int,
        stopped,
    }
}

/// What the screen shows for the buffer `client` shows; see `document_screen` and
/// `folder_screen`.
pub open spec fn screen_of(client: Client, width: usize, height: usize, names: Seq<String>) -> Seq<DrawOp> {
    let b = client.current();
    match b.kind {
        BufferKind::Regular { text, .. } => document_screen(
            text.piece().pieces(),
            frame_of(client, width, height, names),
            client.mode,
            info_chars(client.info),
            b.cursorpos,
        ),
        BufferKind::Folder { inhabitants } => folder_screen(
            inhabitants@,
            b.line_offset as int,
            b.cursorpos,
        ),
    }
}

/// The pen in plain numbers, as the drawing code keeps it.
pub struct PenState {
    pub line: usize,
    pub col: usize,
    pub mark: Option<Color>,
    pub own: Option<(usize, usize)>,
    pub wraps: usize,
    pub stopped: bool,
}

impl PenState {
    /// The pen it holds.
    pub open spec fn pen(&self) -> Pen {
        pen_of(self.line, self.col, self.mark, self.own, self.wraps, self.stopped)
    }

    /// Its numbers are in range for a screen `width` columns wide, with `count` characters
    /// drawn so far.
    pub open spec fn bounded(&self, width: usize, count: int) -> bool {
        &&& self.line <= count
        &&& self.wraps <= self.line
        &&& self.col <= width - 3
        &&& self.own matches Some((r, c)) ==> c <= width - 3
    }
}

/// Draws the character `c`; see `draw_char`.
fn draw_char_exec(
    st: &mut PenState,
    out: &mut Vec<DrawOp>,
    c: char,
    width: usize,
    height: usize,
    offset: usize,
    row: usize,
    Ghost(f): Ghost<Frame>,
    Ghost(count): Ghost<int>,
)
    requires
        width >= 3,
        f.width == width,
        f.height == height,
        f.offset == offset,
        f.row == row,
        old(st).bounded(width, count),
        count < usize::MAX,
    ensures
        final(st).pen() == draw_char(old(st).pen(), c, f).0,
        final(out)@ == old(out)@ + draw_char(old(st).pen(), c, f).1,
        final(st).bounded(width, count + 1),
{
    let ghost start = out@;
    if st.stopped {
        proof {
            assert(out@ =~= start + Seq::<DrawOp>::empty());
        }
        return ;
    }
    if c == '\n' {
        if st.line >= offset && st.line - offset >= height {
            st.col = 0;
            st.stopped = true;
            proof {
                assert(out@ =~= start + Seq::<DrawOp>::empty());
            }
        } else if st.line >= offset {
            match st.mark {
                Some(x) => {
                    out.push(DrawOp::Background(x));
                    out.push(DrawOp::Print(' '));
                    out.push(DrawOp::NextLine);
                    out.push(DrawOp::Background(Color::Reset));
                },
                None => {
                    out.push(DrawOp::NextLine);
                },
            }
            out.push(DrawOp::MoveToColumn(2));
            out.push(DrawOp::Print(PIPE_CHAR));
            st.line = st.line + 1;
            st.col = 0;
            st.mark = None;
            proof {
                assert(out@ =~= start + draw_char(old(st).pen(), c, f).1);
            }
        } else {
            st.line = st.line + 1;
            st.col = 0;
            proof {
                assert(out@ =~= start + Seq::<DrawOp>::empty());
            }
        }
    } else if st.line >= offset {
        if st.col >= width - 3 {
            let l = st.line + 1;
            if row >= offset && row - offset >= l - st.wraps {
                st.wraps = st.wraps + 1;
            }
            st.line = l;
            st.col = 0;
            out.push(DrawOp::NextLine);
            out.push(DrawOp::MoveToColumn(2));
            out.push(DrawOp::Print(PIPE_CHAR));
            proof {
                assert(out@ =~= start + draw_char(old(st).pen(), c, f).1);
            }
        } else {
            match st.mark {
                Some(x) => {
                    out.push(DrawOp::Background(x));
                    out.push(DrawOp::Print(c));
                    out.push(DrawOp::Background(Color::Reset));
                },
                None => {
                    out.push(DrawOp::Print(c));
                },
            }
            st.col = st.col + 1;
            st.mark = None;
            proof {
                assert(out@ =~= start + draw_char(old(st).pen(), c, f).1);
            }
        }
    } else {
        proof {
            assert(out@ =~= start + Seq::<DrawOp>::empty());
        }
    }
}

/// Draws the characters `cs`; see `draw_chars`.
fn draw_chars_exec(
    st: &mut PenState,
    out: &mut Vec<DrawOp>,
    cs: &Vec<char>,
    width: usize,
    height: usize,
    offset: usize,
    row: usize,
    Ghost(f): Ghost<Frame>,
    Ghost(count): Ghost<int>,
)
    requires
        width >= 3,
        f.width == width,
        f.height == height,
        f.offset == offset,
        f.row == row,
        old(st).bounded(width, count),
        count + cs@.len() <= usize::MAX,
    ensures
        final(st).pen() == draw_chars(old(st).pen(), cs@, f).0,
        final(out)@ == old(out)@ + draw_chars(old(st).pen(), cs@, f).1,
        final(st).bounded(width, count + cs@.len()),
{
    let ghost p0 = st.pen();
    let ghost start = out@;
    let mut k: usize = 0;
    proof {
        assert(cs@.take(0) =~= Seq::<char>::empty());
        assert(out@ =~= start + Seq::<DrawOp>::empty());
    }
    while k < cs.len()
        invariant
            k <= cs@.len(),
            width >= 3,
            f.width == width,
            f.height == height,
            f.offset == offset,
            f.row == row,
            count + cs@.len() <= usize::MAX,
            st.pen() == draw_chars(p0, cs@.take(k as int), f).0,
            out@ == start + draw_chars(p0, cs@.take(k as int), f).1,
            st.bounded(width, count + k),
        decreases cs@.len() - k,
    {
        let c = cs[k];
        draw_char_exec(st, out, c, width, height, offset, row, Ghost(f), Ghost(count + k));
        proof {
            assert(cs@.take(k + 1).drop_last() =~= cs@.take(k as int));
            assert(cs@.take(k + 1).last() == c);
            assert(out@ =~= start + draw_chars(p0, cs@.take(k + 1), f).1);
        }
        k = k + 1;
    }
    proof {
        assert(cs@.take(k as int) =~= cs@);
    }
}

/// Draws the end of a piece marked `buf`; see `draw_piece_end`.
fn draw_piece_end_exec(
    st: &mut PenState,
    out: &mut Vec<DrawOp>,
    buf: Option<(usize, bool)>,
    offset: usize,
    id: usize,
    colors: &Vec<Color>,
    names: &Vec<String>,
    Ghost(f): Ghost<Frame>,
    Ghost(count): Ghost<int>,
)
    requires
        f.offset == offset,
        f.id == id,
        f.colors == colors@,
        f.names == name_chars(names@),
        old(st).bounded(f.width as usize, count),
    ensures
        final(st).pen() == draw_piece_end(old(st).pen(), buf, f).0,
        final(out)@ == old(out)@ + draw_piece_end(old(st).pen(), buf, f).1,
        final(st).bounded(f.width as usize, count),
{
    let ghost start = out@;
    if st.stopped {
        proof {
            assert(out@ =~= start + Seq::<DrawOp>::empty());
        }
        return ;
    }
    match buf {
        Some((bn, true)) => {
            if bn == id {
                if st.line >= offset {
                    st.own = Some((st.line - offset, st.col));
                }
                out.push(DrawOp::Background(Color::Reset));
                proof {
                    assert(out@ =~= start + draw_piece_end(old(st).pen(), buf, f).1);
                }
            } else {
                let ci = if bn < id {
                    bn
                } else {
                    bn - 1
                };
                let color = if ci < colors.len() {
                    colors[ci]
                } else {
                    Color::Reset
                };
                out.push(DrawOp::SavePosition);
                out.push(DrawOp::MoveToColumn(0));
                out.push(DrawOp::Foreground(color));
                let ghost before_name = out@;
                if bn < names.len() {
                    let n = chars_of(&names[bn]);
                    let take = if n.len() < 2 {
                        n.len()
                    } else {
                        2
                    };
                    let mut two: Vec<char> = Vec::new();
                    let mut j: usize = 0;
                    while j < take
                        invariant
                            j <= take,
                            take <= n@.len(),
                            two@ == n@.take(j as int),
                        decreases take - j,
                    {
                        two.push(n[j]);
                        proof {
                            assert(n@.take(j + 1) =~= n@.take(j as int).push(n@[j as int]));
                        }
                        j = j + 1;
                    }
                    proof {
                        assert(name_chars(names@)[bn as int] == names@[bn as int]@);
                        assert(two@ == initials(f.names, bn as int));
                    }
                    push_prints(out, &two);
                } else {
                    proof {
                        assert(initials(f.names, bn as int) == Seq::<char>::empty());
                        assert(prints(Seq::<char>::empty()) == Seq::<DrawOp>::empty());
                        assert(out@ =~= before_name + prints(initials(f.names, bn as int)));
                    }
                }
                out.push(DrawOp::Foreground(Color::Reset));
                out.push(DrawOp::RestorePosition);
                out.push(DrawOp::Background(Color::Reset));
                st.mark = Some(color);
                proof {
                    assert(color == color_of(f.colors, bn as int, f.id));
                    assert(out@ =~= start + draw_piece_end(old(st).pen(), buf, f).1);
                }
            }
        },
        _ => {
            proof {
                assert(out@ =~= start + Seq::<DrawOp>::empty());
            }
        },
    }
}

/// Draws the bottom line and places the cursor; see `draw_bottom`.
fn draw_bottom_exec(
    out: &mut Vec<DrawOp>,
    st: &PenState,
    width: usize,
    height: usize,
    offset: usize,
    mode: &Mode,
    info: &Option<String>,
    cursor: CursorPos,
    Ghost(f): Ghost<Frame>,
)
    requires
        width >= 3,
        f.width == width,
        f.height == height,
        f.offset == offset,
        st.bounded(width, usize::MAX as int),
    ensures
        final(out)@ == old(out)@ + draw_bottom(st.pen(), f, *mode, info_chars(*info), cursor),
{
    let ghost start = out@;
    match mode {
        Mode::Command(cmd) => {
            out.push(DrawOp::MoveTo(0, height));
            out.push(DrawOp::ClearLine);
            out.push(DrawOp::Print(':'));
            let cmd_chars = chars_of(cmd);
            push_prints(out, &cmd_chars);
            proof {
                assert(out@ =~= start + draw_bottom(st.pen(), f, *mode, info_chars(*info), cursor));
            }
        },
        _ => {
            match info {
                Some(s) => {
                    let w = s.as_str().len();
                    let x = if width >= w {
                        width - w
                    } else {
                        0
                    };
                    out.push(DrawOp::MoveTo(x, height));
                    out.push(DrawOp::ClearLine);
                    let text = chars_of(s);
                    push_prints(out, &text);
                },
                None => {},
            }
            let ghost message = out@;
            match st.own {
                Some((r, c)) => {
                    out.push(DrawOp::MoveTo(c + 3, r));
                },
                None => {
                    let x = if cursor.col <= usize::MAX - 3 {
                        cursor.col + 3
                    } else {
                        usize::MAX
                    };
                    let down = if cursor.row >= offset {
                        cursor.row - offset
                    } else {
                        0
                    };
                    let y = if down <= usize::MAX - st.wraps {
                        down + st.wraps
                    } else {
                        usize::MAX
                    };
                    out.push(DrawOp::MoveTo(x, y));
                },
            }
            proof {
                assert(out@ =~= start + draw_bottom(st.pen(), f, *mode, info_chars(*info), cursor));
            }
        },
    }
}

impl Client {
    /// What to draw for the buffer shown, on a screen `width` columns wide and `height` lines
    /// high, with the clients' names by number.
    pub fn redraw(&self, width: usize, height: usize, names: &Vec<String>) -> (r: Vec<DrawOp>)
        requires
            self.wf(),
            width >= 3,
        ensures
            r@ == screen_of(*self, width, height, names@),
    {
        match &self.curr().kind {
            BufferKind::Regular { .. } => self.draw_regular(width, height, names),
            BufferKind::Folder { inhabitants } => self.draw_inhabitants(inhabitants),
        }
    }

    /// What to draw for a document; see `document_screen`.
    #[verifier::rlimit(40)]
    #[verifier::spinoff_prover]
    fn draw_regular(&self, width: usize, height: usize, names: &Vec<String>) -> (r: Vec<DrawOp>)
        requires
            self.wf(),
            self.current().kind is Regular,
            width >= 3,
        ensures
            r@ == document_screen(
                self.current().kind->text.piece().pieces(),
                frame_of(*self, width, height, names@),
                self.mode,
                info_chars(self.info),
                self.current().cursorpos,
            ),
    {
        let b = self.curr();
        let (text, id, colors) = match &b.kind {
            BufferKind::Regular { text, id, colors } => (text, *id, colors),
            BufferKind::Folder { .. } => return Vec::new(),
        };
        let ghost f = frame_of(*self, width, height, names@);
        let ghost ps = text.piece().pieces();
        let all = text.chars();
        let total = all.len();
        let elems = text.bufs();
        proof {
            text.piece().piece_table.lemma_lengths();
        }
        let offset = b.line_offset;
        let row = b.cursorpos.row;
        let mut out: Vec<DrawOp> = Vec::new();
        out.push(DrawOp::ClearAll);
        out.push(DrawOp::MoveTo(2, 0));
        out.push(DrawOp::Print(PIPE_CHAR));
        let ghost head = out@;
        let mut st = PenState { line: 0, col: 0, mark: None, own: None, wraps: 0, stopped: false };
        let mut i: usize = 0;
        proof {
            assert(ps.take(0) =~= Seq::<TableElem>::empty());
            assert(out@ =~= head + draw_pieces(start_pen(), ps.take(0), f).1);
        }
        while i < elems.len()
            invariant
                elems@ == text.piece().piece_table.elems(),
                ps == text.piece().pieces(),
                ps.len() == elems@.len(),
                total == concat_text(ps).len(),
                i <= ps.len(),
                width >= 3,
                f == frame_of(*self, width, height, names@),
                f.width == width,
                f.height == height,
                f.offset == offset,
                f.row == row,
                f.id == id,
                f.colors == colors@,
                f.names == name_chars(names@),
                st.pen() == draw_pieces(start_pen(), ps.take(i as int), f).0,
                out@ == head + draw_pieces(start_pen(), ps.take(i as int), f).1,
                st.bounded(width, concat_text(ps.take(i as int)).len() as int),
            decreases ps.len() - i,
        {
            let piece = elems[i].read();
            let cs = piece.text.chars();
            let ghost before = out@;
            let ghost p0 = st.pen();
            proof {
                assert(ps[i as int] == elems@[i as int].value());
                lemma_concat_split(ps, i + 1);
                lemma_concat_append(ps.take(i as int), seq![ps[i as int]]);
                lemma_concat_single(ps[i as int]);
                assert(ps.take(i as int) + seq![ps[i as int]] =~= ps.take(i + 1));
            }
            let ghost count = concat_text(ps.take(i as int)).len() as int;
            draw_chars_exec(&mut st, &mut out, &cs, width, height, offset, row, Ghost(f), Ghost(count));
            draw_piece_end_exec(
                &mut st,
                &mut out,
                piece.buf,
                offset,
                id,
                colors,
                names,
                Ghost(f),
                Ghost(count + cs@.len()),
            );
            proof {
                assert(ps.take(i + 1).drop_last() =~= ps.take(i as int));
                assert(ps.take(i + 1).last() == ps[i as int]);
                assert(out@ =~= head + draw_pieces(start_pen(), ps.take(i + 1), f).1);
            }
            i = i + 1;
        }
        proof {
            assert(ps.take(i as int) =~= ps);
        }
        let ghost body = out@;
        match st.mark {
            Some(x) => {
                out.push(DrawOp::Background(x));
                out.push(DrawOp::Print(' '));
                out.push(DrawOp::Background(Color::Reset));
            },
            None => {},
        }
        let ghost after_tail = out@;
        if st.line < height {
            let n = height - st.line;
            let mut j: usize = 0;
            proof {
                assert(after_tail + empty_lines(0) =~= after_tail);
            }
            while j < n
                invariant
                    j <= n,
                    out@ == after_tail + empty_lines(j as int),
                decreases n - j,
            {
                out.push(DrawOp::NextLine);
                out.push(DrawOp::MoveToColumn(2));
                out.push(DrawOp::Print(PIPE_CHAR));
                proof {
                    assert(empty_lines(j + 1) == empty_lines(j as int) + seq![DrawOp::NextLine] + bar());
                    assert(out@ =~= after_tail + empty_lines(j + 1));
                }
                j = j + 1;
            }
        } else {
            proof {
                assert(out@ =~= after_tail + empty_lines(height - st.line));
            }
        }
        draw_bottom_exec(&mut out, &st, width, height, offset, &self.mode, &self.info, b.cursorpos, Ghost(f));
        proof {
            assert(out@ =~= document_screen(ps, f, self.mode, info_chars(self.info), b.cursorpos));
        }
        out
    }

    /// What to draw for a folder listing; see `folder_screen`.
    fn draw_inhabitants(&self, inhabitants: &Vec<Inhabitant>) -> (r: Vec<DrawOp>)
        requires
            self.wf(),
            self.current().kind == (BufferKind::Folder { inhabitants: *inhabitants }),
        ensures
            r@ == folder_screen(inhabitants@, self.current().line_offset as int, self.current().cursorpos),
    {
        let b = self.curr();
        let offset = b.line_offset;
        let mut out: Vec<DrawOp> = Vec::new();
        out.push(DrawOp::ClearAll);
        out.push(DrawOp::MoveTo(0, 0));
        let ghost head = out@;
        let ghost names = names_of(inhabitants@);
        let ghost folders = inhabitants@.map_values(|i: Inhabitant| i.is_folder);
        if offset >= inhabitants.len() {
            proof {
                lemma_no_entries(names, folders, offset as int);
            }
            out.push(DrawOp::MoveTo(b.cursorpos.col, b.cursorpos.row));
            proof {
                assert(out@ =~= folder_screen(inhabitants@, offset as int, b.cursorpos));
            }
            return out;
        }
        let mut i: usize = offset;
        proof {
            lemma_entries_before(names, folders, offset as int, offset as int);
            assert(out@ =~= head + entries_ops(names.take(i as int), folders.take(i as int), offset as int));
        }
        while i < inhabitants.len()
            invariant
                offset <= i <= inhabitants@.len(),
                names == names_of(inhabitants@),
                folders == inhabitants@.map_values(|i: Inhabitant| i.is_folder),
                out@ == head + entries_ops(names.take(i as int), folders.take(i as int), offset as int),
            decreases inhabitants@.len() - i,
        {
            let entry = &inhabitants[i];
            let ghost before = out@;
            if entry.is_folder {
                out.push(DrawOp::Foreground(Color::DarkBlue));
            }
            let name = chars_of(&entry.name);
            push_prints(&mut out, &name);
            if entry.is_folder {
                out.push(DrawOp::Print('/'));
                out.push(DrawOp::Foreground(Color::Reset));
            }
            out.push(DrawOp::NextLine);
            proof {
                assert(names.take(i + 1).drop_last() =~= names.take(i as int));
                assert(folders.take(i + 1).drop_last() =~= folders.take(i as int));
                assert(names.take(i + 1).last() == entry.name@);
                assert(folders.take(i + 1)[i as int] == entry.is_folder);
                assert(out@ =~= before + entry_ops(entry.name@, entry.is_folder));
                assert(out@ =~= head + entries_ops(names.take(i + 1), folders.take(i + 1), offset as int));
            }
            i = i + 1;
        }
        proof {
            assert(names.take(i as int) =~= names);
            assert(folders.take(i as int) =~= folders);
        }
        out.push(DrawOp::MoveTo(b.cursorpos.col, b.cursorpos.row));
        proof {
            assert(out@ =~= folder_screen(inhabitants@, offset as int, b.cursorpos));
        }
        out
    }
}

/// No entries are drawn from past the last one.
proof fn lemma_no_entries(names: Seq<Seq<char>>, folders: Seq<bool>, offset: int)
    requires
        names.len() <= offset,
    ensures
        entries_ops(names, folders, offset) == Seq::<DrawOp>::empty(),
{
}

/// Drawing the entries before `offset` draws nothing.
proof fn lemma_entries_before(names: Seq<Seq<char>>, folders: Seq<bool>, offset: int, k: int)
    requires
        0 <= k <= offset,
        k <= names.len(),
    ensures
        entries_ops(names.take(k), folders.take(k), offset) == Seq::<DrawOp>::empty(),
{
}


/// The cursor of another client `b` is drawn in the color received for it, the colors listing
/// the other clients in order, ours left out: its initials are written in that color, and the
/// character drawn next on the screen, a blank at a line's end, gets that color behind it.
pub proof fn law_mark_color(p: Pen, b: usize, f: Frame, c: char)
    requires
        !p.stopped,
        b != f.id,
        0 <= f.id,
        b < f.id ==> b < f.colors.len(),
        b > f.id ==> b - 1 < f.colors.len(),
    ensures
        ({
            let color = if b < f.id {
                f.colors[b as int]
            } else {
                f.colors[b - 1]
            };
            let (p1, ops) = draw_piece_end(p, Some((b, true)), f);
            &&& p1.mark == Some(color)
            &&& ops[2] == DrawOp::Foreground(color)
            &&& p1.line >= f.offset && (c == '\n' ==> p1.line < f.height + f.offset) && (c
                != '\n' ==> p1.col < f.width - 3) ==> draw_char(p1, c, f).1[0]
                == DrawOp::Background(color)
        }),
{
}

} // verus!
