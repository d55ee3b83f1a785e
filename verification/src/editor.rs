//! The editing client: its buffers, each with a cursor, the mode it is in, and what each
//! command does to them. What has to reach the server comes back as effects, which the caller
//! carries out.
use vstd::prelude::*;
use vstd::string::{StrSliceExecFns, StringSliceAdditionalSpecFns};
use vstd::utf8::encode_utf8;

use crate::btep::{Color, Inhabitant, C2S, S2C};
use crate::encoding::char_utf8_len;
use crate::keys::{
    bindings_of, first_step, next_step, waits, waits_for_more, Bindings, Command, Key, KeyCode,
    Step,
};
use crate::piece::{insert_point, split_lines};
use crate::session::{action_allowed, applied, apply_if_allowed, Mode};
use crate::text::{
    backspace_swaps, deleted_point, deletes_with_swaps, insert_room, law_backspace_replays,
    push_room, Text,
};
use crate::utils::CursorPos;

verus! {

broadcast use vstd::seq::group_seq_axioms;

/// What a buffer shows.
#[derive(Debug)]
pub enum BufferKind {
    /// A document: its text, our own client number in it, and the colors of the others.
    Regular { text: Text, id: usize, colors: Vec<Color> },
    /// The entries of a folder.
    Folder { inhabitants: Vec<Inhabitant> },
}

/// A buffer of the editor: what it shows, whether it may be edited, where the cursor is, how
/// far it is scrolled, and the connection its changes go out on, by number.
#[derive(Debug)]
pub struct Buffer {
    /// What the buffer shows.
    pub kind: BufferKind,
    /// Whether the buffer may be edited.
    pub modifiable: bool,
    /// Where the cursor is.
    pub cursorpos: CursorPos,
    /// How many lines are scrolled past.
    pub line_offset: usize,
    /// The number of the connection the buffer's changes go out on.
    pub link: Option<usize>,
}

/// Something the caller has to carry out for the editor.
#[derive(Debug)]
pub enum Effect {
    /// Send a message on a connection.
    Send(usize, C2S),
    /// Open the named entry of the folder the buffer on a connection shows, in that buffer's
    /// place.
    Open(Option<usize>, String),
    /// Show the help text in a buffer of its own.
    Help,
}

/// The message `msg` sent on `link`, if the buffer has a link.
pub open spec fn sent(link: Option<usize>, msg: C2S) -> Option<Effect> {
    match link {
        Some(l) => Some(Effect::Send(l, msg)),
        None => None,
    }
}

/// The length in bytes of a line.
pub open spec fn byte_len(line: Seq<char>) -> usize {
    encode_utf8(line).len() as usize
}

/// The column the cursor can reach on line `row` of `lines` moving along it: the line's length
/// less `less`, but not below zero, and zero past the last line.
pub open spec fn reach(lines: Seq<Seq<char>>, row: int, less: nat) -> usize {
    if 0 <= row < lines.len() && lines[row].len() >= less {
        (lines[row].len() - less) as usize
    } else {
        0
    }
}

/// The column the cursor can reach on entry `row` of a folder: the name's length in bytes less
/// one, but not below zero, and zero past the last entry.
pub open spec fn entry_reach(names: Seq<Seq<char>>, row: int) -> usize {
    if 0 <= row < names.len() && byte_len(names[row]) >= 1 {
        (byte_len(names[row]) - 1) as usize
    } else {
        0
    }
}

/// The names of a folder's entries.
pub open spec fn names_of(inhabitants: Seq<Inhabitant>) -> Seq<Seq<char>> {
    inhabitants.map_values(|i: Inhabitant| i.name@)
}

/// Where the cursor goes when `c` is typed at `pos`: to the start of the next line after a line
/// break, one column on otherwise.
pub open spec fn typed_cursor(pos: CursorPos, c: char) -> CursorPos {
    if c == '\n' {
        CursorPos { row: (pos.row + 1) as usize, col: 0 }
    } else {
        CursorPos { row: pos.row, col: (pos.col + 1) as usize }
    }
}

/// The smaller of two numbers.
pub open spec fn min(a: int, b: int) -> int {
    if a <= b {
        a
    } else {
        b
    }
}

/// `a - b`, but not below zero.
pub open spec fn sat_sub(a: int, b: int) -> int {
    if a >= b {
        a - b
    } else {
        0
    }
}

/// One step of the walk over a document that finds how far to scroll, for a screen `width`
/// columns wide and `height` lines high, scrolled `offset` lines, with the cursor on line
/// `row`. The state is the screen line reached, the column on it, how many lines wrapped before
/// the cursor's line, and whether the walk went past the bottom of the screen.
pub open spec fn walk_step(
    s: (int, int, int, bool),
    c: char,
    width: int,
    height: int,
    offset: int,
    row: int,
) -> (int, int, int, bool) {
    let (line, col, wraps, stopped) = s;
    if stopped {
        s
    } else if c == '\n' {
        if line >= height + offset {
            (line, 0, wraps, true)
        } else {
            (line + 1, 0, wraps, false)
        }
    } else if line >= offset {
        if col >= width - 3 {
            (line + 1, 0, if row >= offset + line + 1 { wraps + 1 } else { wraps }, false)
        } else {
            (line, col + 1, wraps, false)
        }
    } else {
        s
    }
}

/// The walk of `walk_step` over the characters `chars`, from the top of the document.
pub open spec fn walk(chars: Seq<char>, width: int, height: int, offset: int, row: int) -> (
    int,
    int,
    int,
    bool,
)
    decreases chars.len(),
{
    if chars.len() == 0 {
        (0, 0, 0, false)
    } else {
        walk_step(walk(chars.drop_last(), width, height, offset, row), chars.last(), width, height, offset, row)
    }
}

/// How far to scroll so that the cursor, on line `row` with `wraps` wrapped lines above it,
/// shows on a screen of `rows` lines scrolled `offset` lines: up to the cursor's line when it is
/// above the screen, just far enough when it is below.
pub open spec fn scrolled(offset: int, row: int, rows: int, wraps: int) -> int {
    if offset > row {
        row
    } else if offset + rows <= row + wraps {
        row + wraps - rows + 1
    } else {
        offset
    }
}

/// What `Buffer::move_left` does.
pub open spec fn moved_left(b0: Buffer, b1: Buffer) -> bool {
    &&& b1.kind == b0.kind
    &&& b1.cursorpos == (CursorPos {
        row: b0.cursorpos.row,
        col: sat_sub(b0.cursorpos.col as int, 1) as usize,
    })
    &&& b1.modifiable == b0.modifiable
    &&& b1.line_offset == b0.line_offset
    &&& b1.link == b0.link
}

/// What `Buffer::move_up` does.
pub open spec fn moved_up(b0: Buffer, b1: Buffer) -> bool {
    &&& b1.kind == b0.kind
    &&& ({
        let row = sat_sub(b0.cursorpos.row as int, 1);
        let most = match b0.kind {
            BufferKind::Regular { .. } => reach(b0.lines(), row, 1),
            BufferKind::Folder { inhabitants } => entry_reach(names_of(inhabitants@), row),
        };
        b1.cursorpos == CursorPos {
            row: row as usize,
            col: min(b0.cursorpos.col as int, most as int) as usize,
        }
    })
    &&& b1.modifiable == b0.modifiable
    &&& b1.line_offset == b0.line_offset
    &&& b1.link == b0.link
}

/// What `Buffer::move_down` does.
pub open spec fn moved_down(b0: Buffer, b1: Buffer) -> bool {
    &&& b1.kind == b0.kind
    &&& ({
        let last = sat_sub(b0.lines().len() as int, 1);
        let row = min(b0.cursorpos.row + 1, last);
        let most = match b0.kind {
            BufferKind::Regular { .. } => reach(b0.lines(), row, 2),
            BufferKind::Folder { inhabitants } => entry_reach(names_of(inhabitants@), row),
        };
        b1.cursorpos == CursorPos {
            row: row as usize,
            col: min(b0.cursorpos.col as int, most as int) as usize,
        }
    })
    &&& b1.modifiable == b0.modifiable
    &&& b1.line_offset == b0.line_offset
    &&& b1.link == b0.link
}

/// What `Buffer::move_right` does.
pub open spec fn moved_right(b0: Buffer, b1: Buffer) -> bool {
    &&& b1.kind == b0.kind
    &&& ({
        let row = b0.cursorpos.row as int;
        let most = match b0.kind {
            BufferKind::Regular { .. } => reach(b0.lines(), row, 1),
            BufferKind::Folder { inhabitants } => entry_reach(names_of(inhabitants@), row),
        };
        b1.cursorpos == CursorPos {
            row: b0.cursorpos.row,
            col: min(b0.cursorpos.col + 1, most as int) as usize,
        }
    })
    &&& b1.modifiable == b0.modifiable
    &&& b1.line_offset == b0.line_offset
    &&& b1.link == b0.link
}

/// What `Buffer::enter_insert` does at `pos`, answering `r`.
pub open spec fn entered(b0: Buffer, b1: Buffer, pos: CursorPos, r: (bool, Option<Effect>)) -> bool {
    &&& b1.cursorpos == b0.cursorpos
    &&& b1.modifiable == b0.modifiable
    &&& b1.line_offset == b0.line_offset
    &&& b1.link == b0.link
    &&& r.0 <==> b0.modifiable && b0.kind is Regular && insert_room(
        b0.kind->text.members()[b0.kind->id as int],
        b0.kind->text.piece(),
    )
    &&& !r.0 ==> b1 == b0 && r.1 is None
    &&& r.0 ==> ({
        let (t0, t1, id) = (b0.kind->text, b1.kind->text, b0.kind->id);
        &&& b1.kind is Regular
        &&& b1.kind->id == id
        &&& b1.kind->colors == b0.kind->colors
        &&& t1.others_kept(&t0, id as int)
        &&& t1.text() == t0.text()
        &&& t1.members()[id as int].mode() is Some
        &&& t1.cursor_of(id as int) == insert_point(t0.text(), pos)
        &&& r.1 == sent(b0.link, C2S::EnterInsert(pos))
    })
}

/// What `Buffer::type_char` does with `c`, answering `r`.
pub open spec fn typed(b0: Buffer, b1: Buffer, c: char, r: Option<Effect>) -> bool {
    &&& b1.modifiable == b0.modifiable
    &&& b1.line_offset == b0.line_offset
    &&& b1.link == b0.link
    &&& !b0.can_type(c) ==> b1 == b0 && r is None
    &&& b0.can_type(c) ==> ({
        let (t0, t1, id) = (b0.kind->text, b1.kind->text, b0.kind->id);
        let m = t0.cursor_of(id as int);
        &&& b1.kind is Regular
        &&& b1.kind->id == id
        &&& b1.kind->colors == b0.kind->colors
        &&& t1.others_kept(&t0, id as int)
        &&& t1.text() == t0.text().take(m) + seq![c] + t0.text().skip(m)
        &&& t1.cursor_of(id as int) == m + 1
        &&& t1.members()[id as int].mode() is Some
        &&& b1.cursorpos == typed_cursor(b0.cursorpos, c)
        &&& r == sent(b0.link, C2S::Char(c))
    })
}

/// What `Buffer::exit_insert` does, answering `r`.
pub open spec fn exited(b0: Buffer, b1: Buffer, r: Option<Effect>) -> bool {
    &&& b1.modifiable == b0.modifiable
    &&& b1.line_offset == b0.line_offset
    &&& b1.link == b0.link
    &&& b0.kind is Folder ==> b1 == b0 && r is None
    &&& b0.kind is Regular ==> ({
        let (t0, t1, id) = (b0.kind->text, b1.kind->text, b0.kind->id);
        let lines = split_lines(t0.text());
        let p = b0.cursorpos;
        &&& b1.kind is Regular
        &&& b1.kind->id == id
        &&& b1.kind->colors == b0.kind->colors
        &&& t1.others_kept(&t0, id as int)
        &&& t1.piece() == t0.piece()
        &&& t1.members()[id as int].mode() is None
        &&& b1.cursorpos == if p.row < lines.len() && p.col == byte_len(
            lines[p.row as int],
        ) {
            CursorPos { row: p.row, col: sat_sub(p.col as int, 1) as usize }
        } else {
            p
        }
        &&& r == sent(b0.link, C2S::ExitInsert)
    })
}

/// What `Buffer::backspace` does, answering `r`.
pub open spec fn backspaced(b0: Buffer, b1: Buffer, r: (Option<char>, Option<Effect>)) -> bool {
    &&& b1.modifiable == b0.modifiable
    &&& b1.line_offset == b0.line_offset
    &&& b1.link == b0.link
    &&& !(b0.kind is Regular && b0.kind->text.members()[b0.kind->id as int].mode() is Some) ==> b1
        == b0 && r.0 is None && r.1 is None
    &&& b0.kind is Regular && b0.kind->text.members()[b0.kind->id as int].mode() is Some ==> ({
        let (t0, t1, id) = (b0.kind->text, b1.kind->text, b0.kind->id);
        let t = t0.text();
        let m = t0.cursor_of(id as int);
        let lines = split_lines(t);
        let p = b0.cursorpos;
        &&& b1.kind is Regular
        &&& b1.kind->id == id
        &&& b1.kind->colors == b0.kind->colors
        &&& t1.others_kept(&t0, id as int)
        &&& t1.members()[id as int].mode() is Some
        &&& r.0 matches Some(ch) ==> 1 <= m && ch == t[m - 1] && t1.text() == t.remove(m - 1)
        &&& r.0 is None ==> t1.text() == t
        &&& (r.0 is Some <==> deletes_with_swaps(t0.members()[id as int], t0.piece(), 0))
        &&& t1.cursor_of(id as int) == m - (if r.0 is Some { 1int } else { 0 })
        &&& t0.typing(id as int) ==> r.0 is Some
        &&& b1.cursorpos == if r.0 is None {
            p
        } else if p.col > 0 {
            CursorPos { row: p.row, col: (p.col - 1) as usize }
        } else if 0 < p.row && p.row - 1 < lines.len() {
            CursorPos { row: (p.row - 1) as usize, col: byte_len(lines[p.row - 1]) }
        } else {
            p
        }
        &&& b0.link is None ==> r.1 is None
        &&& b0.link matches Some(l) ==> r.1 matches Some(Effect::Send(
            l2,
            C2S::Backspace(s),
        )) && l2 == l && s as int == backspace_swaps(t0.members()[id as int], t0.piece())
    })
}

/// What `Buffer::update` does with `msg`, answering `r`.
pub open spec fn updated(b0: Buffer, b1: Buffer, msg: S2C<Text>, r: bool) -> bool {
    &&& b1.cursorpos == b0.cursorpos
    &&& b1.modifiable == b0.modifiable
    &&& b1.line_offset == b0.line_offset
    &&& b1.link == b0.link
    &&& b0.kind is Folder ==> b1 == b0 && !r
    &&& b0.kind is Regular ==> ({
        let (t0, t1, id) = (b0.kind->text, b1.kind->text, b0.kind->id);
        &&& b1.kind is Regular
        &&& b1.kind->id == id
        &&& (r <==> msg is Update)
        &&& match msg {
            S2C::Update((client, action)) => if client < t0.members().len()
                && action_allowed(t0, client as int, action) {
                applied(t0, t1, client as int, action) && b1.kind->colors
                    == b0.kind->colors
            } else {
                b1 == b0
            },
            S2C::NewClient((_, color)) => if t0.members().len() < usize::MAX {
                &&& t1.text() == t0.text()
                &&& t1.members().len() == t0.members().len() + 1
                &&& t1.members().take(t0.members().len() as int) == t0.members()
                &&& b1.kind->colors@ == b0.kind->colors@.push(color)
            } else {
                b1 == b0
            },
            _ => b1 == b0,
        }
    })
}

/// What `Buffer::recalculate_cursor` does.
pub open spec fn rescrolled(b0: Buffer, b1: Buffer, screen: (u16, u16), rows: u16) -> bool {
    &&& b1.kind == b0.kind
    &&& b1.cursorpos == b0.cursorpos
    &&& b1.modifiable == b0.modifiable
    &&& b1.link == b0.link
    &&& b0.kind is Folder ==> b1.line_offset == b0.line_offset
    &&& b0.kind is Regular ==> ({
        let w = walk(
            b0.kind->text.text(),
            screen.0 as int,
            screen.1 as int,
            b0.line_offset as int,
            b0.cursorpos.row as int,
        );
        let s = scrolled(
            b0.line_offset as int,
            b0.cursorpos.row as int,
            rows as int,
            w.2,
        );
        b1.line_offset == min(s, usize::MAX as int)
    })
}


/// Whether `c` is white space in Unicode.
pub open spec fn is_space(c: char) -> bool {
    let v = c as u32;
    ||| 9 <= v <= 13
    ||| v == 32
    ||| v == 0x85
    ||| v == 0xA0
    ||| v == 0x1680
    ||| 0x2000 <= v <= 0x200A
    ||| v == 0x2028
    ||| v == 0x2029
    ||| v == 0x202F
    ||| v == 0x205F
    ||| v == 0x3000
}

/// Whether `c` is white space in Unicode.
pub fn is_whitespace(c: char) -> (r: bool)
    ensures
        r == is_space(c),
{
    let v = c as u32;
    (9 <= v && v <= 13) || v == 32 || v == 0x85 || v == 0xA0 || v == 0x1680 || (0x2000 <= v && v
        <= 0x200A) || v == 0x2028 || v == 0x2029 || v == 0x202F || v == 0x205F || v == 0x3000
}

/// What deleting the word before the cursor does to a buffer: when we are typing in its
/// document, a stretch of the text right before our cursor is gone and the cursor stands where
/// it began; otherwise nothing changes.
pub open spec fn deleted_word(b0: Buffer, b1: Buffer) -> bool {
    &&& b1.modifiable == b0.modifiable
    &&& b1.line_offset == b0.line_offset
    &&& b1.link == b0.link
    &&& !(b0.kind is Regular && b0.kind->text.members()[b0.kind->id as int].mode() is Some) ==> b1
        == b0
    &&& b0.kind is Regular && b0.kind->text.members()[b0.kind->id as int].mode() is Some ==> ({
        let (t0, t1, id) = (b0.kind->text, b1.kind->text, b0.kind->id);
        let t = t0.text();
        let m = t0.cursor_of(id as int);
        &&& b1.kind is Regular
        &&& b1.kind->id == id
        &&& b1.kind->colors == b0.kind->colors
        &&& t1.others_kept(&t0, id as int)
        &&& t1.members()[id as int].mode() is Some
        &&& exists|j: int| 0 <= j <= m && t1.text() == t.take(j) + t.skip(m) && t1.cursor_of(id as int) == j
    })
}

/// The lines of the text.
fn text_lines(text: &Text) -> (r: Vec<String>)
    requires
        text.wf(),
    ensures
        r@.len() == split_lines(text.text()).len(),
        forall|i: int| 0 <= i < r@.len() ==> (#[trigger] r@[i])@ == split_lines(text.text())[i],
{
    let r = text.lines();
    proof {
        assert forall|i: int| 0 <= i < r@.len() implies (#[trigger] r@[i])@ == split_lines(
            text.text(),
        )[i] by {
            assert(r@.map_values(|l: String| l@)[i] == r@[i]@);
        }
    }
    r
}

/// The number of characters of line `row`, less `less` but not below zero, and zero past the
/// last line.
fn line_reach(text: &Text, row: usize, less: usize) -> (r: usize)
    requires
        text.wf(),
    ensures
        r == reach(split_lines(text.text()), row as int, less as nat),
{
    let lines = text_lines(text);
    if row < lines.len() {
        let n = lines[row].as_str().unicode_len();
        if n >= less {
            n - less
        } else {
            0
        }
    } else {
        0
    }
}

/// The length in bytes of line `row`, if there is one.
fn line_bytes(text: &Text, row: usize) -> (r: Option<usize>)
    requires
        text.wf(),
    ensures
        row < split_lines(text.text()).len() <==> r is Some,
        r matches Some(n) ==> n == byte_len(split_lines(text.text())[row as int]),
{
    let lines = text_lines(text);
    if row < lines.len() {
        Some(lines[row].as_str().len())
    } else {
        None
    }
}

/// The length in characters of line `row`, if there is one.
fn line_chars(text: &Text, row: usize) -> (r: Option<usize>)
    requires
        text.wf(),
    ensures
        row < split_lines(text.text()).len() <==> r is Some,
        r matches Some(n) ==> n == split_lines(text.text())[row as int].len(),
{
    let lines = text_lines(text);
    if row < lines.len() {
        Some(lines[row].as_str().unicode_len())
    } else {
        None
    }
}

/// The column the cursor can reach on entry `row` of a folder; see `entry_reach`.
fn folder_reach(inhabitants: &Vec<Inhabitant>, row: usize) -> (r: usize)
    ensures
        r == entry_reach(names_of(inhabitants@), row as int),
{
    if row < inhabitants.len() {
        let n = inhabitants[row].name.as_str().len();
        if n >= 1 {
            n - 1
        } else {
            0
        }
    } else {
        0
    }
}

impl Buffer {
    /// A document buffer is well formed and we are one of its clients.
    pub open spec fn wf(&self) -> bool {
        match self.kind {
            BufferKind::Regular { text, id, .. } => text.wf() && id < text.members().len(),
            BufferKind::Folder { .. } => true,
        }
    }

    /// The lines the cursor moves over: the document's lines, or the entries' names.
    pub open spec fn lines(&self) -> Seq<Seq<char>> {
        match self.kind {
            BufferKind::Regular { text, .. } => split_lines(text.text()),
            BufferKind::Folder { inhabitants } => names_of(inhabitants@),
        }
    }

    /// Whether we can type `c` in the document now: we are typing in it, there is room, and
    /// the cursor can move on.
    pub open spec fn can_type(&self, c: char) -> bool {
        &&& self.kind is Regular
        &&& self.kind->text.members()[self.kind->id as int].mode() is Some
        &&& push_room(
            self.kind->text.members()[self.kind->id as int],
            self.kind->text.piece(),
            encode_utf8(seq![c]).len(),
        )
        &&& c == '\n' ==> self.cursorpos.row < usize::MAX
        &&& c != '\n' ==> self.cursorpos.col < usize::MAX
    }

    /// A buffer showing a document we join as a new client, with the others' colors and the
    /// connection its changes go out on.
    pub fn new(text: Text, colors: Vec<Color>, link: Option<usize>) -> (r: Buffer)
        requires
            text.wf(),
            text.members().len() < usize::MAX,
        ensures
            r.wf(),
            r.kind is Regular,
            r.kind->text.text() == text.text(),
            r.kind->id == text.members().len(),
            r.kind->text.members().take(text.members().len() as int) == text.members(),
            r.kind->colors@ == colors@,
            r.modifiable,
            r.cursorpos == (CursorPos { row: 0, col: 0 }),
            r.line_offset == 0,
            r.link == link,
    {
        let mut text = text;
        let id = text.add_client();
        Buffer {
            kind: BufferKind::Regular { text, id, colors },
            modifiable: true,
            cursorpos: CursorPos { row: 0, col: 0 },
            line_offset: 0,
            link,
        }
    }

    /// A buffer showing the entries of a folder; it cannot be edited.
    pub fn folder(inhabitants: Vec<Inhabitant>, link: Option<usize>) -> (r: Buffer)
        ensures
            r.wf(),
            r.kind == (BufferKind::Folder { inhabitants }),
            !r.modifiable,
            r.cursorpos == (CursorPos { row: 0, col: 0 }),
            r.line_offset == 0,
            r.link == link,
    {
        Buffer {
            kind: BufferKind::Folder { inhabitants },
            modifiable: false,
            cursorpos: CursorPos { row: 0, col: 0 },
            line_offset: 0,
            link,
        }
    }

    /// Where the cursor is.
    pub fn cursor(&self) -> (r: &CursorPos)
        ensures
            *r == self.cursorpos,
    {
        &self.cursorpos
    }

    /// Moves the cursor one column left, not past the first.
    pub fn move_left(&mut self)
        ensures
            moved_left(*old(self), *final(self)),
    {
        if self.cursorpos.col > 0 {
            self.cursorpos.col = self.cursorpos.col - 1;
        }
    }

    /// Moves the cursor one line up, not past the first, and no further right than the last
    /// character of that line.
    pub fn move_up(&mut self)
        requires
            old(self).wf(),
        ensures
            final(self).wf(),
            moved_up(*old(self), *final(self)),
    {
        if self.cursorpos.row > 0 {
            self.cursorpos.row = self.cursorpos.row - 1;
        }
        let row = self.cursorpos.row;
        let most = match &self.kind {
            BufferKind::Regular { text, .. } => line_reach(text, row, 1),
            BufferKind::Folder { inhabitants } => folder_reach(inhabitants, row),
        };
        if most < self.cursorpos.col {
            self.cursorpos.col = most;
        }
    }

    /// Moves the cursor one line down, not past the last, and no further right than the
    /// second-to-last character of that line in a document, or the last of a folder's entry.
    pub fn move_down(&mut self)
        requires
            old(self).wf(),
        ensures
            final(self).wf(),
            moved_down(*old(self), *final(self)),
    {
        let count = match &self.kind {
            BufferKind::Regular { text, .. } => text_lines(text).len(),
            BufferKind::Folder { inhabitants } => inhabitants.len(),
        };
        let last = if count >= 1 {
            count - 1
        } else {
            0
        };
        if self.cursorpos.row < last {
            self.cursorpos.row = self.cursorpos.row + 1;
        } else {
            self.cursorpos.row = last;
        }
        let row = self.cursorpos.row;
        let most = match &self.kind {
            BufferKind::Regular { text, .. } => line_reach(text, row, 2),
            BufferKind::Folder { inhabitants } => folder_reach(inhabitants, row),
        };
        if most < self.cursorpos.col {
            self.cursorpos.col = most;
        }
    }

    /// Enters insert mode at `pos` in the document, when the buffer may be edited and there is
    /// room for it; says whether it did, with the message for the others.
    pub fn enter_insert(&mut self, pos: CursorPos) -> (r: (bool, Option<Effect>))
        requires
            old(self).wf(),
        ensures
            final(self).wf(),
            entered(*old(self), *final(self), pos, r),
    {
        if !self.modifiable {
            return (false, None);
        }
        let link = self.link;
        match &mut self.kind {
            BufferKind::Regular { text, id, .. } => {
                if !text.has_insert_room(*id) {
                    return (false, None);
                }
                let _split = text.enter_insert(*id, pos);
            },
            BufferKind::Folder { .. } => {
                return (false, None);
            },
        }
        match link {
            Some(l) => (true, Some(Effect::Send(l, C2S::EnterInsert(pos)))),
            None => (true, None),
        }
    }

    /// Types `c` at our cursor in the document, when we can (see `can_type`): the cursor follows,
    /// to the start of the next line after a line break; returns the message for the others.
    pub fn type_char(&mut self, c: char) -> (r: Option<Effect>)
        requires
            old(self).wf(),
        ensures
            final(self).wf(),
            typed(*old(self), *final(self), c, r),
    {
        if c == '\n' && self.cursorpos.row == usize::MAX {
            return None;
        }
        if c != '\n' && self.cursorpos.col == usize::MAX {
            return None;
        }
        let link = self.link;
        match &mut self.kind {
            BufferKind::Regular { text, id, .. } => {
                if !text.client(*id).in_insert() {
                    return None;
                }
                if !text.has_push_room(*id, char_utf8_len(c)) {
                    return None;
                }
                text.push_char(*id, c);
            },
            BufferKind::Folder { .. } => {
                return None;
            },
        }
        if c == '\n' {
            self.cursorpos.col = 0;
            self.cursorpos.row = self.cursorpos.row + 1;
        } else {
            self.cursorpos.col = self.cursorpos.col + 1;
        }
        match link {
            Some(l) => Some(Effect::Send(l, C2S::Char(c))),
            None => None,
        }
    }

    /// Leaves insert mode in the document; the cursor steps back one column when it stands
    /// right after the end of its line (counted in bytes). Returns the message for the others.
    pub fn exit_insert(&mut self) -> (r: Option<Effect>)
        requires
            old(self).wf(),
        ensures
            final(self).wf(),
            exited(*old(self), *final(self), r),
    {
        let link = self.link;
        let len = match &mut self.kind {
            BufferKind::Regular { text, id, .. } => {
                text.exit_insert(*id);
                line_bytes(text, self.cursorpos.row)
            },
            BufferKind::Folder { .. } => {
                return None;
            },
        };
        match len {
            Some(n) => if self.cursorpos.col == n && n > 0 {
                self.cursorpos.col = n - 1;
            },
            None => {},
        }
        match link {
            Some(l) => Some(Effect::Send(l, C2S::ExitInsert)),
            None => None,
        }
    }

    /// Deletes the character before our cursor in the document, when we are typing in it; the
    /// cursor steps back, to the end of the line above (counted in bytes) after a deleted line
    /// break. Returns the deleted character and the message for the others.
    pub fn backspace(&mut self) -> (r: (Option<char>, Option<Effect>))
        requires
            old(self).wf(),
        ensures
            final(self).wf(),
            backspaced(*old(self), *final(self), r),
    {
        let link = self.link;
        let row = self.cursorpos.row;
        let (deleted, swaps, above) = match &mut self.kind {
            BufferKind::Regular { text, id, .. } => {
                if !text.client(*id).in_insert() {
                    return (None, None);
                }
                let above = if row > 0 {
                    line_bytes(text, row - 1)
                } else {
                    None
                };
                let (deleted, swaps) = text.backspace(*id);
                (deleted, swaps, above)
            },
            BufferKind::Folder { .. } => {
                return (None, None);
            },
        };
        if deleted.is_some() {
            if self.cursorpos.col > 0 {
                self.cursorpos.col = self.cursorpos.col - 1;
            } else {
                match above {
                    Some(n) => {
                        self.cursorpos.row = row - 1;
                        self.cursorpos.col = n;
                    },
                    None => {},
                }
            }
        }
        let effect = match link {
            Some(l) => Some(Effect::Send(l, C2S::Backspace(swaps))),
            None => None,
        };
        (deleted, effect)
    }

    /// Applies what the server sent: another client's action, when it may send it now (the
    /// screen is to be redrawn then), or a new client joining with its color. Anything else,
    /// and anything sent to a folder listing, changes nothing.
    pub fn update(&mut self, msg: S2C<Text>) -> (r: bool)
        requires
            old(self).wf(),
        ensures
            final(self).wf(),
            updated(*old(self), *final(self), msg, r),
    {
        match &mut self.kind {
            BufferKind::Regular { text, colors, .. } => match msg {
                S2C::Update((client, action)) => {
                    let _ = apply_if_allowed(text, client, &action);
                    true
                },
                S2C::NewClient((_name, color)) => {
                    if text.clients().len() < usize::MAX {
                        let _ = text.add_client();
                        colors.push(color);
                    }
                    false
                },
                _ => false,
            },
            BufferKind::Folder { .. } => false,
        }
    }

    /// Scrolls a document buffer so that the cursor shows, on a screen `screen.0` columns wide
    /// and `screen.1` lines high of which `rows` show text; see `walk` and `scrolled`. The
    /// offset stops at the largest `usize`.
    pub fn recalculate_cursor(&mut self, screen: (u16, u16), rows: u16)
        requires
            old(self).wf(),
            screen.0 >= 3,
        ensures
            rescrolled(*old(self), *final(self), screen, rows),
    {
        let chars = match &self.kind {
            BufferKind::Regular { text, .. } => text.chars(),
            BufferKind::Folder { .. } => {
                return ;
            },
        };
        let ghost all = chars@;
        let width = screen.0 as usize;
        let height = screen.1 as usize;
        let offset = self.line_offset;
        let row = self.cursorpos.row;
        let mut line: usize = 0;
        let mut col: usize = 0;
        let mut wraps: usize = 0;
        let mut stopped = false;
        let mut i: usize = 0;
        while i < chars.len()
            invariant
                all == chars@,
                i <= chars@.len(),
                line <= i,
                col <= i,
                wraps <= i,
                (line as int, col as int, wraps as int, stopped) == walk(
                    all.take(i as int),
                    width as int,
                    height as int,
                    offset as int,
                    row as int,
                ),
                width >= 3,
            decreases chars@.len() - i,
        {
            let c = chars[i];
            proof {
                assert(all.take(i + 1).drop_last() =~= all.take(i as int));
                assert(all.take(i + 1).last() == c);
            }
            if !stopped {
                if c == '\n' {
                    col = 0;
                    if line >= offset && line - offset >= height {
                        stopped = true;
                    } else {
                        line = line + 1;
                    }
                } else if line >= offset {
                    if col >= width - 3 {
                        col = 0;
                        line = line + 1;
                        if row >= offset && row - offset >= line {
                            wraps = wraps + 1;
                        }
                    } else {
                        col = col + 1;
                    }
                }
            }
            i = i + 1;
        }
        proof {
            assert(all.take(i as int) =~= all);
        }
        if offset > row {
            self.line_offset = row;
        } else if offset as u128 + rows as u128 <= row as u128 + wraps as u128 {
            let target: u128 = row as u128 + wraps as u128 - rows as u128 + 1;
            if target <= usize::MAX as u128 {
                self.line_offset = target as usize;
            } else {
                self.line_offset = usize::MAX;
            }
        }
    }

    /// Deletes the word before the cursor, as ctrl-w does: after a line break only that; after
    /// spaces, those and the character before them, then on back; otherwise back to the last
    /// white space, which is typed again. Returns the messages for the others.
    pub fn delete_word(&mut self) -> (r: Vec<Effect>)
        requires
            old(self).wf(),
        ensures
            final(self).wf(),
            deleted_word(*old(self), *final(self)),
    {
        let mut out: Vec<Effect> = Vec::new();
        let ghost b0 = *self;
        proof {
            if b0.kind is Regular && b0.kind->text.members()[b0.kind->id as int].mode() is Some {
                crate::text::lemma_cursor_in_text(b0.kind->text, b0.kind->id as int);
            }
        }
        let (first, e) = self.backspace();
        out.append(&mut list(e));
        let first = match first {
            None => {
                proof {
                    if b0.kind is Regular && b0.kind->text.members()[b0.kind->id as int].mode() is Some {
                        let (t0, id) = (b0.kind->text, b0.kind->id);
                        let m = t0.cursor_of(id as int);
                        crate::text::lemma_cursor_in_text(t0, id as int);
                        assert(t0.text().take(m) + t0.text().skip(m) =~= t0.text());
                    }
                }
                return out;
            },
            Some(c) => c,
        };
        proof {
            let (t0, id) = (b0.kind->text, b0.kind->id);
            let m = t0.cursor_of(id as int);
            assert(t0.text().remove(m - 1) =~= t0.text().take(m - 1) + t0.text().skip(m));
        }
        if first == '\n' {
            return out;
        }
        let ghost t = b0.kind->text.text();
        let ghost m = b0.kind->text.cursor_of(b0.kind->id as int);
        proof {
            crate::text::lemma_cursor_in_text(b0.kind->text, b0.kind->id as int);
        }
        if first == ' ' {
            loop
                invariant
                    self.wf(),
                    b0.wf(),
                    b0.kind is Regular,
                    b0.kind->text.members()[b0.kind->id as int].mode() is Some,
                    t == b0.kind->text.text(),
                    m == b0.kind->text.cursor_of(b0.kind->id as int),
                    m <= t.len(),
                    self.modifiable == b0.modifiable,
                    self.line_offset == b0.line_offset,
                    self.link == b0.link,
                    self.kind is Regular,
                    self.kind->id == b0.kind->id,
                    self.kind->colors == b0.kind->colors,
                    self.kind->text.others_kept(&b0.kind->text, b0.kind->id as int),
                    self.kind->text.members()[b0.kind->id as int].mode() is Some,
                    exists|j: int|
                        0 <= j <= m && self.kind->text.text() == t.take(j) + t.skip(m)
                            && self.kind->text.cursor_of(b0.kind->id as int) == j,
                decreases self.kind->text.text().len(),
            {
                let ghost before = *self;
                let (d, e) = self.backspace();
                out.append(&mut list(e));
                proof {
                    let id = b0.kind->id as int;
                    let j = choose|j: int|
                        0 <= j <= m && before.kind->text.text() == t.take(j) + t.skip(m)
                            && before.kind->text.cursor_of(id) == j;
                    if d is Some {
                        assert(1 <= j);
                        assert(before.kind->text.text().remove(j - 1) =~= t.take(j - 1) + t.skip(m));
                    }
                    assert forall|k: int| 0 <= k < self.kind->text.members().len() && k != id implies
                        #[trigger] self.kind->text.members()[k] == b0.kind->text.members()[k] by {
                        assert(self.kind->text.members()[k] == before.kind->text.members()[k]);
                    }
                }
                match d {
                    Some(c) => if c != ' ' {
                        break ;
                    },
                    None => break ,
                }
            }
        }
        loop
            invariant
                self.wf(),
                b0.wf(),
                b0.kind is Regular,
                b0.kind->text.members()[b0.kind->id as int].mode() is Some,
                t == b0.kind->text.text(),
                m == b0.kind->text.cursor_of(b0.kind->id as int),
                m <= t.len(),
                self.modifiable == b0.modifiable,
                self.line_offset == b0.line_offset,
                self.link == b0.link,
                self.kind is Regular,
                self.kind->id == b0.kind->id,
                self.kind->colors == b0.kind->colors,
                self.kind->text.others_kept(&b0.kind->text, b0.kind->id as int),
                self.kind->text.members()[b0.kind->id as int].mode() is Some,
                exists|j: int|
                    0 <= j <= m && self.kind->text.text() == t.take(j) + t.skip(m)
                        && self.kind->text.cursor_of(b0.kind->id as int) == j,
            decreases self.kind->text.text().len(),
        {
            let ghost before = *self;
            let (d, e) = self.backspace();
            out.append(&mut list(e));
            proof {
                let id = b0.kind->id as int;
                let j = choose|j: int|
                    0 <= j <= m && before.kind->text.text() == t.take(j) + t.skip(m)
                        && before.kind->text.cursor_of(id) == j;
                if d is Some {
                    assert(1 <= j);
                    assert(before.kind->text.text().remove(j - 1) =~= t.take(j - 1) + t.skip(m));
                    assert(before.kind->text.text()[j - 1] == t[j - 1]);
                }
                assert forall|k: int| 0 <= k < self.kind->text.members().len() && k != id implies
                    #[trigger] self.kind->text.members()[k] == b0.kind->text.members()[k] by {
                    assert(self.kind->text.members()[k] == before.kind->text.members()[k]);
                }
            }
            match d {
                Some(c) => {
                    if is_whitespace(c) {
                        let ghost mid = *self;
                        let e2 = self.type_char(c);
                        out.append(&mut list(e2));
                        proof {
                            let id = b0.kind->id as int;
                            let j = choose|j: int|
                                0 <= j <= m && mid.kind->text.text() == t.take(j) + t.skip(m)
                                    && mid.kind->text.cursor_of(id) == j;
                            let jb = choose|j: int|
                                0 <= j <= m && before.kind->text.text() == t.take(j) + t.skip(m)
                                    && before.kind->text.cursor_of(id) == j;
                            assert(j == jb - 1);
                            assert(c == t[j]);
                            if mid.can_type(c) {
                                assert(t.take(j) + seq![c] + (t.take(j) + t.skip(m)).skip(j) =~= t.take(
                                    j + 1,
                                ) + t.skip(m));
                            }
                            assert forall|k: int|
                                0 <= k < self.kind->text.members().len() && k != id implies
                                #[trigger] self.kind->text.members()[k] == b0.kind->text.members()[k] by {
                                if mid.can_type(c) {
                                    assert(self.kind->text.members()[k] == mid.kind->text.members()[k]);
                                }
                            }
                        }
                        break ;
                    }
                },
                None => break ,
            }
        }
        out
    }

    /// Moves the cursor one column right, no further than the last character of the line.
    pub fn move_right(&mut self)
        requires
            old(self).wf(),
        ensures
            final(self).wf(),
            moved_right(*old(self), *final(self)),
    {
        let row = self.cursorpos.row;
        let most = match &self.kind {
            BufferKind::Regular { text, .. } => line_reach(text, row, 1),
            BufferKind::Folder { inhabitants } => folder_reach(inhabitants, row),
        };
        if self.cursorpos.col < most {
            self.cursorpos.col = self.cursorpos.col + 1;
        } else {
            self.cursorpos.col = most;
        }
    }
}

/// `String::pop`: removes the last character and returns it, or `None` when the string is
/// empty.
#[verifier::external_body]
fn string_pop(s: &mut String) -> (r: Option<char>)
    ensures
        old(s)@.len() == 0 ==> r is None && final(s)@ == old(s)@,
        old(s)@.len() > 0 ==> r == Some(old(s)@.last()) && final(s)@ == old(s)@.drop_last(),
{
    s.pop()
}

/// Whether `s` reads `w`.
fn reads(s: &str, w: &str) -> (r: bool)
    ensures
        r == (s@ == w@),
{
    let n = s.unicode_len();
    if n != w.unicode_len() {
        return false;
    }
    let mut i: usize = 0;
    while i < n
        invariant
            i <= n,
            n == s@.len(),
            n == w@.len(),
            s@.take(i as int) == w@.take(i as int),
        decreases n - i,
    {
        if s.get_char(i) != w.get_char(i) {
            return false;
        }
        proof {
            assert(s@.take(i + 1) =~= s@.take(i as int).push(s@[i as int]));
            assert(w@.take(i + 1) =~= w@.take(i as int).push(w@[i as int]));
        }
        i = i + 1;
    }
    proof {
        assert(s@.take(n as int) =~= s@);
        assert(w@.take(n as int) =~= w@);
    }
    true
}

/// The effect, if any, as a list.
pub open spec fn listed(e: Option<Effect>) -> Seq<Effect> {
    match e {
        Some(e) => seq![e],
        None => seq![],
    }
}

/// The effect, if any, as a list.
fn list(e: Option<Effect>) -> (r: Vec<Effect>)
    ensures
        r@ == listed(e),
{
    let mut r: Vec<Effect> = Vec::new();
    match e {
        Some(e) => r.push(e),
        None => {},
    }
    proof {
        assert(r@ =~= listed(e));
    }
    r
}

/// What `Client::execute_command` does with the command `cmd`, answering `r`.
pub open spec fn commanded(c0: Client, c1: Client, cmd: Seq<char>, r: (bool, Option<Effect>)) -> bool {
    let n = c0.buffers@.len() as int;
    let cur = c0.current_buffer as int;
    let moves = cmd == "bn"@ || cmd == "bufnext"@ || cmd == "bp"@ || cmd == "bufprev"@ || cmd
        == "bufprevious"@;
    &&& c1.mode == c0.mode
    &&& c1.info == c0.info
    &&& cmd == "q"@ ==> {
        &&& r.1 is None
        &&& c1.buffers@ == c0.buffers@.remove(cur)
        &&& r.0 == (c1.buffers@.len() == 0)
        &&& c1.current_buffer == if !r.0 && cur == c1.buffers@.len() {
            (cur - 1) as usize
        } else {
            c0.current_buffer
        }
    }
    &&& cmd != "q"@ ==> !r.0 && c1.buffers == c0.buffers
    &&& cmd == "w"@ ==> c1.current_buffer == c0.current_buffer && r.1 == sent(
        c0.current().link,
        C2S::Save,
    )
    &&& cmd == "help"@ ==> c1.current_buffer == c0.current_buffer && r.1 == Some(Effect::Help)
    &&& moves ==> r.1 is None && c1.current_buffer == (cur + 1) % n
    &&& !(cmd == "q"@ || cmd == "w"@ || cmd == "help"@ || moves) ==> r.1 is None
        && c1.current_buffer == c0.current_buffer
}

/// What `Client::fallback` does with `key`, giving the effects `es`.
pub open spec fn fell_back(c0: Client, c1: Client, key: Key, es: Seq<Effect>) -> bool {
    &&& (c0.mode is Insert && key.code is Char) ==> exists|e: Option<Effect>|
        typed(c0.current(), c1.current(), key.code->0, e) && c0.but_current(&c1, c0.mode) && es
            == listed(e)
    &&& !(c0.mode is Insert && key.code is Char) ==> c1 == c0 && es.len() == 0
}

/// The editor: its buffers, the one shown, the mode, and a message for the user.
#[derive(Debug)]
pub struct Client {
    /// The buffers.
    pub buffers: Vec<Buffer>,
    /// The buffer shown.
    pub current_buffer: usize,
    /// The mode.
    pub mode: Mode,
    /// A message shown to the user.
    pub info: Option<String>,
}

/// The mode after trying to enter insert mode: insert mode when it worked.
pub open spec fn after_enter(entered: bool, mode: Mode) -> Mode {
    if entered {
        Mode::Insert
    } else {
        mode
    }
}

/// Entering insert mode at `pos` in the buffer shown, its cursor first moved to `pos`.
pub open spec fn entered_at(c0: Client, c1: Client, pos: CursorPos, es: Seq<Effect>) -> bool {
    exists|r: (bool, Option<Effect>)|
        entered(
            Buffer { cursorpos: pos, ..c0.current() },
            c1.current(),
            pos,
            r,
        ) && c0.but_current(&c1, after_enter(r.0, c0.mode)) && es == listed(r.1)
}

/// The end of the cursor's line in a buffer, counted in characters; the first column past the
/// last line.
pub open spec fn line_end_pos(b: Buffer) -> CursorPos {
    let p = b.cursorpos;
    let lines = b.lines();
    CursorPos {
        row: p.row,
        col: if p.row < lines.len() {
            lines[p.row as int].len() as usize
        } else {
            0
        },
    }
}

/// What `Client::run` does with the command `cmd`, giving the effects `es`.
pub open spec fn ran(c0: Client, c1: Client, cmd: Command, es: Seq<Effect>) -> bool {
    let b0 = c0.current();
    let b1 = c1.current();
    let p = b0.cursorpos;
    let lines = b0.lines();
    let unchanged = c1 == c0 && es.len() == 0;
    match cmd {
        Command::Insert => entered_at(c0, c1, p, es),
        Command::InsertAtLineStart => entered_at(c0, c1, CursorPos { row: p.row, col: 0 }, es),
        Command::Append => if !b0.modifiable || b0.kind is Folder || p.row >= lines.len() {
            unchanged
        } else {
            entered_at(
                c0,
                c1,
                CursorPos {
                    row: p.row,
                    col: min(byte_len(lines[p.row as int]) as int, p.col + 1) as usize,
                },
                es,
            )
        },
        Command::AppendAtLineEnd => if !b0.modifiable || b0.kind is Folder || p.row >= lines.len() {
            unchanged
        } else {
            entered_at(c0, c1, CursorPos { row: p.row, col: byte_len(lines[p.row as int]) }, es)
        },
        Command::OpenLineBelow => if !b0.modifiable || b0.kind is Folder {
            unchanged
        } else {
            exists|mid: Buffer, r1: (bool, Option<Effect>), r2: Option<Effect>|
                entered(b0, mid, line_end_pos(b0), r1) && typed(mid, b1, '\n', r2) && c0.but_current(
                    &c1,
                    after_enter(r1.0, c0.mode),
                ) && es == listed(r1.1) + listed(r2)
        },
        Command::StartCommand => {
            &&& c1.buffers == c0.buffers
            &&& c1.current_buffer == c0.current_buffer
            &&& c1.info == c0.info
            &&& c1.mode matches Mode::Command(s) && s@.len() == 0
            &&& es.len() == 0
        },
        Command::Nothing => unchanged,
        Command::MoveLeft => moved_left(b0, b1) && c0.but_current(&c1, c0.mode) && es.len() == 0,
        Command::MoveDown => moved_down(b0, b1) && c0.but_current(&c1, c0.mode) && es.len() == 0,
        Command::MoveUp => moved_up(b0, b1) && c0.but_current(&c1, c0.mode) && es.len() == 0,
        Command::MoveRight => moved_right(b0, b1) && c0.but_current(&c1, c0.mode) && es.len() == 0,
        Command::OpenEntry => c1 == c0 && match b0.kind {
            BufferKind::Folder { inhabitants } => if p.row < inhabitants@.len() {
                es.len() == 1 && (es[0] matches Effect::Open(l, name) && l == b0.link && name@
                    == inhabitants@[p.row as int].name@)
            } else {
                es.len() == 0
            },
            _ => es.len() == 0,
        },
        Command::Newline => exists|r: Option<Effect>|
            typed(b0, b1, '\n', r) && c0.but_current(&c1, c0.mode) && es == listed(r),
        Command::ExitInsert => exists|r: Option<Effect>|
            exited(b0, b1, r) && c0.but_current(&c1, Mode::Normal) && es == listed(r),
        Command::Backspace => exists|r: (Option<char>, Option<Effect>)|
            backspaced(b0, b1, r) && c0.but_current(&c1, c0.mode) && es == listed(r.1),
        Command::DeleteWord => deleted_word(b0, b1) && c0.but_current(&c1, c0.mode),
        Command::CommandBackspace => es.len() == 0 && match c0.mode {
            Mode::Command(s) => {
                &&& c1.buffers == c0.buffers
                &&& c1.current_buffer == c0.current_buffer
                &&& c1.info == c0.info
                &&& s@.len() == 0 ==> c1.mode is Normal
                &&& s@.len() > 0 ==> (c1.mode matches Mode::Command(t) && t@ == s@.drop_last())
            },
            _ => c1 == c0,
        },
        Command::RunCommand => match c0.mode {
            Mode::Command(s) => exists|mid: Client, r: (bool, Option<Effect>)|
                commanded(c0, mid, s@, r) && es == listed(r.1) && if r.0 {
                    c1 == mid
                } else {
                    c1 == Client { mode: Mode::Normal, ..mid }
                },
            _ => unchanged,
        },
        Command::CommandChar(ch) => es.len() == 0 && match c0.mode {
            Mode::Command(s) => {
                &&& c1.buffers == c0.buffers
                &&& c1.current_buffer == c0.current_buffer
                &&& c1.info == c0.info
                &&& c1.mode matches Mode::Command(t) && t@ == s@.push(ch)
            },
            _ => c1 == c0,
        },
    }
}

impl Client {
    /// There is a buffer shown, and every buffer is well formed.
    pub open spec fn wf(&self) -> bool {
        &&& self.current_buffer < self.buffers@.len()
        &&& forall|i: int| 0 <= i < self.buffers@.len() ==> (#[trigger] self.buffers@[i]).wf()
    }

    /// The buffer shown.
    pub open spec fn current(&self) -> Buffer {
        self.buffers@[self.current_buffer as int]
    }

    /// `other` is this client with the shown buffer replaced, and the mode `mode`.
    pub open spec fn but_current(&self, other: &Client, mode: Mode) -> bool {
        &&& other.buffers@ == self.buffers@.update(self.current_buffer as int, other.current())
        &&& other.current_buffer == self.current_buffer
        &&& other.mode == mode
        &&& other.info == self.info
    }

    /// An editor showing one buffer, in normal mode, with a hint on how to get help.
    pub fn new(buffer: Buffer) -> (r: Client)
        requires
            buffer.wf(),
        ensures
            r.wf(),
            r.buffers@ == seq![buffer],
            r.current_buffer == 0,
            r.mode is Normal,
            r.info is Some,
    {
        let mut buffers: Vec<Buffer> = Vec::new();
        buffers.push(buffer);
        proof {
            assert(buffers@ =~= seq![buffer]);
        }
        Client {
            buffers,
            current_buffer: 0,
            mode: Mode::Normal,
            info: Some("Press Escape then :help to view help".to_owned()),
        }
    }

    /// The buffer shown.
    pub fn curr(&self) -> (r: &Buffer)
        requires
            self.current_buffer < self.buffers@.len(),
        ensures
            *r == self.current(),
    {
        &self.buffers[self.current_buffer]
    }

    /// Takes the buffer shown out, leaving an empty folder listing in its place.
    fn take_current(&mut self) -> (r: Buffer)
        requires
            old(self).current_buffer < old(self).buffers@.len(),
        ensures
            r == old(self).current(),
            final(self).buffers@ == old(self).buffers@.update(
                old(self).current_buffer as int,
                final(self).current(),
            ),
            final(self).current().wf(),
            final(self).current_buffer == old(self).current_buffer,
            final(self).mode == old(self).mode,
            final(self).info == old(self).info,
    {
        let mut b = Buffer::folder(Vec::new(), None);
        self.buffers.set_and_swap(self.current_buffer, &mut b);
        b
    }

    /// Puts `b` back as the buffer shown.
    fn put_current(&mut self, b: Buffer)
        requires
            old(self).current_buffer < old(self).buffers@.len(),
        ensures
            final(self).buffers@ == old(self).buffers@.update(old(self).current_buffer as int, b),
            final(self).current_buffer == old(self).current_buffer,
            final(self).mode == old(self).mode,
            final(self).info == old(self).info,
    {
        let mut b = b;
        self.buffers.set_and_swap(self.current_buffer, &mut b);
    }

    /// After the shown buffer was replaced by a well-formed one, the client is well formed.
    proof fn lemma_wf_current(&self, old: &Client)
        requires
            old.wf(),
            self.current_buffer == old.current_buffer,
            self.buffers@ == old.buffers@.update(old.current_buffer as int, self.current()),
            self.current().wf(),
        ensures
            self.wf(),
    {
        assert forall|i: int| 0 <= i < self.buffers@.len() implies (#[trigger] self.buffers@[i]).wf() by {
            if i != self.current_buffer {
                assert(self.buffers@[i] == old.buffers@[i]);
            }
        }
    }

    /// Adds a buffer and shows it.
    pub fn add_buffer(&mut self, buffer: Buffer)
        requires
            old(self).wf(),
            buffer.wf(),
        ensures
            final(self).wf(),
            final(self).buffers@ == old(self).buffers@.push(buffer),
            final(self).current_buffer == old(self).buffers@.len(),
            final(self).mode == old(self).mode,
            final(self).info == old(self).info,
    {
        self.buffers.push(buffer);
        self.current_buffer = self.buffers.len() - 1;
        proof {
            assert forall|i: int| 0 <= i < self.buffers@.len() implies (#[trigger] self.buffers@[i]).wf() by {
                if i < old(self).buffers@.len() {
                    assert(self.buffers@[i] == old(self).buffers@[i]);
                }
            }
        }
    }

    /// Closes the buffer shown, and shows the one before it when it was the last; says whether
    /// no buffer is left.
    pub fn close_current_buffer(&mut self) -> (r: bool)
        requires
            old(self).wf(),
        ensures
            final(self).buffers@ == old(self).buffers@.remove(old(self).current_buffer as int),
            r == (final(self).buffers@.len() == 0),
            final(self).current_buffer == if !r && old(self).current_buffer
                == final(self).buffers@.len() {
                (old(self).current_buffer - 1) as usize
            } else {
                old(self).current_buffer
            },
            !r ==> final(self).wf(),
            final(self).mode == old(self).mode,
            final(self).info == old(self).info,
    {
        let _closed = self.buffers.remove(self.current_buffer);
        proof {
            assert forall|i: int| 0 <= i < self.buffers@.len() implies (#[trigger] self.buffers@[i]).wf() by {
                if i < old(self).current_buffer {
                    assert(self.buffers@[i] == old(self).buffers@[i]);
                } else {
                    assert(self.buffers@[i] == old(self).buffers@[i + 1]);
                }
            }
        }
        if self.current_buffer == self.buffers.len() {
            if self.buffers.len() == 0 {
                return true;
            }
            self.current_buffer = self.current_buffer - 1;
        }
        false
    }

    /// Enters insert mode at `pos` in the buffer shown, and the editor's insert mode with it
    /// when that worked; see `Buffer::enter_insert`.
    pub fn enter_insert(&mut self, pos: CursorPos) -> (r: (bool, Option<Effect>))
        requires
            old(self).wf(),
        ensures
            final(self).wf(),
            entered(old(self).current(), final(self).current(), pos, r),
            old(self).but_current(&*final(self), after_enter(r.0, old(self).mode)),
    {
        let mut b = self.take_current();
        let r = b.enter_insert(pos);
        self.put_current(b);
        if r.0 {
            self.mode = Mode::Insert;
        }
        proof {
            assert(self.buffers@ =~= old(self).buffers@.update(
                old(self).current_buffer as int,
                self.current(),
            ));
            self.lemma_wf_current(old(self));
        }
        r
    }

    /// Types `c` in the buffer shown; see `Buffer::type_char`.
    pub fn type_char(&mut self, c: char) -> (r: Option<Effect>)
        requires
            old(self).wf(),
        ensures
            final(self).wf(),
            typed(old(self).current(), final(self).current(), c, r),
            old(self).but_current(&*final(self), old(self).mode),
    {
        let mut b = self.take_current();
        let r = b.type_char(c);
        self.put_current(b);
        proof {
            assert(self.buffers@ =~= old(self).buffers@.update(
                old(self).current_buffer as int,
                self.current(),
            ));
            self.lemma_wf_current(old(self));
        }
        r
    }

    /// Leaves insert mode, in the buffer shown and in the editor; see `Buffer::exit_insert`.
    pub fn exit_insert(&mut self) -> (r: Option<Effect>)
        requires
            old(self).wf(),
        ensures
            final(self).wf(),
            exited(old(self).current(), final(self).current(), r),
            old(self).but_current(&*final(self), Mode::Normal),
    {
        let mut b = self.take_current();
        let r = b.exit_insert();
        self.put_current(b);
        self.mode = Mode::Normal;
        proof {
            assert(self.buffers@ =~= old(self).buffers@.update(
                old(self).current_buffer as int,
                self.current(),
            ));
            self.lemma_wf_current(old(self));
        }
        r
    }

    /// Deletes the character before the cursor in the buffer shown; see `Buffer::backspace`.
    pub fn backspace(&mut self) -> (r: (Option<char>, Option<Effect>))
        requires
            old(self).wf(),
        ensures
            final(self).wf(),
            backspaced(old(self).current(), final(self).current(), r),
            old(self).but_current(&*final(self), old(self).mode),
    {
        let mut b = self.take_current();
        let r = b.backspace();
        self.put_current(b);
        proof {
            assert(self.buffers@ =~= old(self).buffers@.update(
                old(self).current_buffer as int,
                self.current(),
            ));
            self.lemma_wf_current(old(self));
        }
        r
    }

    /// Moves the cursor of the buffer shown left.
    pub fn move_left(&mut self)
        requires
            old(self).wf(),
        ensures
            final(self).wf(),
            moved_left(old(self).current(), final(self).current()),
            old(self).but_current(&*final(self), old(self).mode),
    {
        let mut b = self.take_current();
        b.move_left();
        self.put_current(b);
        proof {
            assert(self.buffers@ =~= old(self).buffers@.update(
                old(self).current_buffer as int,
                self.current(),
            ));
            self.lemma_wf_current(old(self));
        }
    }

    /// Moves the cursor of the buffer shown up.
    pub fn move_up(&mut self)
        requires
            old(self).wf(),
        ensures
            final(self).wf(),
            moved_up(old(self).current(), final(self).current()),
            old(self).but_current(&*final(self), old(self).mode),
    {
        let mut b = self.take_current();
        b.move_up();
        self.put_current(b);
        proof {
            assert(self.buffers@ =~= old(self).buffers@.update(
                old(self).current_buffer as int,
                self.current(),
            ));
            self.lemma_wf_current(old(self));
        }
    }

    /// Moves the cursor of the buffer shown down.
    pub fn move_down(&mut self)
        requires
            old(self).wf(),
        ensures
            final(self).wf(),
            moved_down(old(self).current(), final(self).current()),
            old(self).but_current(&*final(self), old(self).mode),
    {
        let mut b = self.take_current();
        b.move_down();
        self.put_current(b);
        proof {
            assert(self.buffers@ =~= old(self).buffers@.update(
                old(self).current_buffer as int,
                self.current(),
            ));
            self.lemma_wf_current(old(self));
        }
    }

    /// Moves the cursor of the buffer shown right.
    pub fn move_right(&mut self)
        requires
            old(self).wf(),
        ensures
            final(self).wf(),
            moved_right(old(self).current(), final(self).current()),
            old(self).but_current(&*final(self), old(self).mode),
    {
        let mut b = self.take_current();
        b.move_right();
        self.put_current(b);
        proof {
            assert(self.buffers@ =~= old(self).buffers@.update(
                old(self).current_buffer as int,
                self.current(),
            ));
            self.lemma_wf_current(old(self));
        }
    }

    /// Moves the cursor of the buffer shown to `pos` and enters insert mode there.
    fn enter_insert_at(&mut self, pos: CursorPos) -> (r: Vec<Effect>)
        requires
            old(self).wf(),
        ensures
            final(self).wf(),
            entered_at(*old(self), *final(self), pos, r@),
    {
        let mut b = self.take_current();
        b.cursorpos = pos;
        self.put_current(b);
        proof {
            assert(self.buffers@ =~= old(self).buffers@.update(
                old(self).current_buffer as int,
                self.current(),
            ));
            self.lemma_wf_current(old(self));
        }
        let ghost mid = *self;
        let (_entered, e) = self.enter_insert(pos);
        proof {
            assert(mid.current() == Buffer { cursorpos: pos, ..old(self).current() });
            assert(self.buffers@ =~= old(self).buffers@.update(
                old(self).current_buffer as int,
                self.current(),
            ));
        }
        list(e)
    }

    /// Runs a command that enters insert mode at the cursor or at the start of its line.
    fn run_entering(&mut self, cmd: Command) -> (r: Vec<Effect>)
        requires
            old(self).wf(),
            matches!(cmd, Command::Insert | Command::InsertAtLineStart),
        ensures
            final(self).wf(),
            ran(*old(self), *final(self), cmd, r@),
    {
        let p = self.curr().cursorpos;
        match cmd {
            Command::Insert => self.enter_insert_at(p),
            _ => self.enter_insert_at(CursorPos { row: p.row, col: 0 }),
        }
    }

    /// Runs a command that enters insert mode one column on or at the end of the line.
    fn run_append(&mut self, cmd: Command) -> (r: Vec<Effect>)
        requires
            old(self).wf(),
            matches!(cmd, Command::Append | Command::AppendAtLineEnd),
        ensures
            final(self).wf(),
            ran(*old(self), *final(self), cmd, r@),
    {
        let p = self.curr().cursorpos;
        if !self.curr().modifiable {
            return Vec::new();
        }
        let len = match &self.curr().kind {
            BufferKind::Regular { text, .. } => line_bytes(text, p.row),
            BufferKind::Folder { .. } => None,
        };
        let len = match len {
            Some(n) => n,
            None => return Vec::new(),
        };
        let col = match cmd {
            Command::Append => if p.col < len {
                p.col + 1
            } else {
                len
            },
            _ => len,
        };
        self.enter_insert_at(CursorPos { row: p.row, col })
    }

    /// Opens a line below the cursor's: enters insert mode at the end of the line and types a
    /// line break.
    fn run_open_line(&mut self) -> (r: Vec<Effect>)
        requires
            old(self).wf(),
        ensures
            final(self).wf(),
            ran(*old(self), *final(self), Command::OpenLineBelow, r@),
    {
        let p = self.curr().cursorpos;
        if !self.curr().modifiable {
            return Vec::new();
        }
        let n = match &self.curr().kind {
            BufferKind::Regular { text, .. } => line_chars(text, p.row),
            BufferKind::Folder { .. } => return Vec::new(),
        };
        let col = match n {
            Some(n) => n,
            None => 0,
        };
        let pos = CursorPos { row: p.row, col };
        let ghost c0 = *self;
        let (entered_now, e1) = self.enter_insert(pos);
        let ghost mid = *self;
        let ghost r1 = (entered_now, e1);
        let e2 = self.type_char('\n');
        let ghost r2 = e2;
        let mut out = list(e1);
        out.append(&mut list(e2));
        proof {
            assert(self.buffers@ =~= c0.buffers@.update(c0.current_buffer as int, self.current()));
            assert(entered(c0.current(), mid.current(), pos, r1));
            assert(typed(mid.current(), self.current(), '\n', r2));
            assert(c0.but_current(&*self, after_enter(r1.0, c0.mode)));
            assert(out@ == listed(r1.1) + listed(r2));
            assert(pos == line_end_pos(c0.current()));
        }
        out
    }

    /// Runs a command that moves the cursor.
    fn run_motion(&mut self, cmd: Command) -> (r: Vec<Effect>)
        requires
            old(self).wf(),
            matches!(cmd, Command::MoveLeft | Command::MoveDown | Command::MoveUp | Command::MoveRight),
        ensures
            final(self).buffers@.len() > 0 ==> final(self).wf(),
            ran(*old(self), *final(self), cmd, r@),
    {
        let p = self.curr().cursorpos;
        match cmd {
            Command::MoveLeft => {
                self.move_left();
                Vec::new()
            },
            Command::MoveDown => {
                self.move_down();
                Vec::new()
            },
            Command::MoveUp => {
                self.move_up();
                Vec::new()
            },
            Command::MoveRight => {
                self.move_right();
                Vec::new()
            },
            _ => Vec::new(),
        }
    }

    /// Runs a command about the command line.
    fn run_line(&mut self, cmd: Command) -> (r: Vec<Effect>)
        requires
            old(self).wf(),
            matches!(cmd, Command::StartCommand | Command::CommandBackspace | Command::RunCommand | Command::CommandChar(_)),
        ensures
            final(self).buffers@.len() > 0 ==> final(self).wf(),
            ran(*old(self), *final(self), cmd, r@),
    {
        let p = self.curr().cursorpos;
        match cmd {
            Command::StartCommand => {
                self.mode = Mode::Command(String::new());
                Vec::new()
            },
            Command::CommandBackspace => {
                match &mut self.mode {
                    Mode::Command(s) => {
                        if string_pop(s).is_none() {
                            self.mode = Mode::Normal;
                        }
                    },
                    _ => {},
                }
                Vec::new()
            },
            Command::RunCommand => {
                let cmd = match &self.mode {
                    Mode::Command(s) => s.clone(),
                    _ => return Vec::new(),
                };
                let (quit, e) = self.execute_command(cmd.as_str());
                if !quit {
                    self.mode = Mode::Normal;
                }
                list(e)
            },
            Command::CommandChar(c) => {
                match &mut self.mode {
                    Mode::Command(s) => crate::piece::string_push(s, c),
                    _ => {},
                }
                Vec::new()
            },

            _ => Vec::new(),
        }
    }

    /// Runs a command that edits the document or opens a folder entry.
    fn run_edit(&mut self, cmd: Command) -> (r: Vec<Effect>)
        requires
            old(self).wf(),
            matches!(cmd, Command::Nothing | Command::OpenEntry | Command::Newline | Command::ExitInsert | Command::Backspace | Command::DeleteWord),
        ensures
            final(self).buffers@.len() > 0 ==> final(self).wf(),
            ran(*old(self), *final(self), cmd, r@),
    {
        let p = self.curr().cursorpos;
        match cmd {
            Command::Nothing => Vec::new(),
            Command::OpenEntry => {
                let b = self.curr();
                let mut out: Vec<Effect> = Vec::new();
                match &b.kind {
                    BufferKind::Folder { inhabitants } => {
                        if p.row < inhabitants.len() {
                            out.push(Effect::Open(b.link, inhabitants[p.row].name.clone()));
                        }
                    },
                    _ => {},
                }
                out
            },
            Command::Newline => {
                let e = self.type_char('\n');
                list(e)
            },
            Command::ExitInsert => {
                let e = self.exit_insert();
                list(e)
            },
            Command::Backspace => {
                let (_deleted, e) = self.backspace();
                list(e)
            },
            Command::DeleteWord => {
                let mut b = self.take_current();
                let out = b.delete_word();
                self.put_current(b);
                proof {
                    assert(self.buffers@ =~= old(self).buffers@.update(
                old(self).current_buffer as int,
                self.current(),
            ));
            self.lemma_wf_current(old(self));
                }
                out
            },
            _ => Vec::new(),
        }
    }

    /// Runs what a bound key sequence does, and returns what has to reach the server.
    pub fn run(&mut self, cmd: Command) -> (r: Vec<Effect>)
        requires
            old(self).wf(),
        ensures
            final(self).buffers@.len() > 0 ==> final(self).wf(),
            ran(*old(self), *final(self), cmd, r@),
    {
        match cmd {
            Command::Insert | Command::InsertAtLineStart => self.run_entering(cmd),
            Command::Append | Command::AppendAtLineEnd => self.run_append(cmd),
            Command::OpenLineBelow => self.run_open_line(),
            Command::MoveLeft | Command::MoveDown | Command::MoveUp | Command::MoveRight => self.run_motion(cmd),
            Command::StartCommand | Command::CommandBackspace | Command::RunCommand | Command::CommandChar(_) => self.run_line(cmd),
            _ => self.run_edit(cmd),
        }
    }

    /// What a key no binding starts with does: in insert mode a character key types its
    /// character; otherwise nothing.
    pub fn fallback(&mut self, key: Key) -> (r: Vec<Effect>)
        requires
            old(self).wf(),
        ensures
            final(self).wf(),
            fell_back(*old(self), *final(self), key, r@),
    {
        match self.mode {
            Mode::Insert => match key.code {
                KeyCode::Char(c) => {
                    let e = self.type_char(c);
                    list(e)
                },
                _ => Vec::new(),
            },
            _ => Vec::new(),
        }
    }

    /// Runs a command written in command mode: `q` closes the buffer shown (saying whether
    /// none is left), `w` asks for the document to be saved, `help` asks for the help text,
    /// `bn` and `bufnext`, and likewise `bp`, `bufprev` and `bufprevious`, show the next
    /// buffer, round to the first; anything else does nothing.
    pub fn execute_command(&mut self, cmd: &str) -> (r: (bool, Option<Effect>))
        requires
            old(self).wf(),
        ensures
            commanded(*old(self), *final(self), cmd@, r),
            !r.0 ==> final(self).wf(),
    {
        proof {
            reveal_strlit("q");
            reveal_strlit("w");
            reveal_strlit("help");
            reveal_strlit("bn");
            reveal_strlit("bufnext");
            reveal_strlit("bp");
            reveal_strlit("bufprev");
            reveal_strlit("bufprevious");
            assert("q"@[0] != "w"@[0]);
            assert("q"@.len() == 1 && "w"@.len() == 1 && "help"@.len() == 4);
            assert("bn"@.len() == 2 && "bp"@.len() == 2 && "bufnext"@.len() == 7);
            assert("bufprev"@.len() == 7 && "bufprevious"@.len() == 11);
            assert("bufnext"@[3] != "bufprev"@[3]);
        }
        if reads(cmd, "q") {
            let quit = self.close_current_buffer();
            return (quit, None);
        }
        if reads(cmd, "w") {
            return match self.curr().link {
                Some(l) => (false, Some(Effect::Send(l, C2S::Save))),
                None => (false, None),
            };
        }
        if reads(cmd, "help") {
            return (false, Some(Effect::Help));
        }
        if reads(cmd, "bn") || reads(cmd, "bufnext") || reads(cmd, "bp") || reads(cmd, "bufprev")
            || reads(cmd, "bufprevious") {
            let n = self.buffers.len();
            if self.current_buffer == n - 1 {
                proof {
                    vstd::arithmetic::div_mod::lemma_mod_self_0(n as int);
                }
                self.current_buffer = 0;
            } else {
                proof {
                    vstd::arithmetic::div_mod::lemma_small_mod(
                        (self.current_buffer + 1) as nat,
                        n as nat,
                    );
                }
                self.current_buffer = self.current_buffer + 1;
            }
            return (false, None);
        }
        (false, None)
    }
}

/// The editor, its key bindings, and the keys pressed that wait for more.
pub struct App {
    /// The editor.
    pub client: Client,
    /// The key bindings.
    pub bindings: Bindings,
    /// The keys pressed that have not set anything off yet.
    pub keymap: Vec<Key>,
}

/// The keys `keys` without the first `n`.
fn drop_front(keys: &Vec<Key>, n: usize) -> (r: Vec<Key>)
    requires
        n <= keys@.len(),
    ensures
        r@ == keys@.skip(n as int),
{
    let mut out: Vec<Key> = Vec::new();
    let mut i: usize = n;
    while i < keys.len()
        invariant
            n <= i <= keys@.len(),
            out@ == keys@.subrange(n as int, i as int),
        decreases keys@.len() - i,
    {
        out.push(keys[i]);
        proof {
            assert(keys@.subrange(n as int, i + 1) =~= keys@.subrange(n as int, i as int).push(
                keys@[i as int],
            ));
        }
        i = i + 1;
    }
    proof {
        assert(keys@.subrange(n as int, i as int) =~= keys@.skip(n as int));
    }
    out
}

/// What `App::execute_top_keyevent` does, answering `r`.
pub open spec fn stepped(a0: App, a1: App, r: (bool, Seq<Effect>)) -> bool {
    &&& a1.bindings == a0.bindings
    &&& a0.keymap@.len() == 0 ==> a1 == a0 && !r.0 && r.1.len() == 0
    &&& a0.keymap@.len() > 0 ==> match first_step(a0.bindings.table(a0.client.mode), a0.keymap@) {
        Step::Run(cmd, n) => {
            &&& a1.keymap@ == a0.keymap@.skip(n as int)
            &&& ran(a0.client, a1.client, cmd, r.1)
            &&& r.0
        },
        Step::Fallback(k) => {
            &&& a1.keymap@ == a0.keymap@.drop_first()
            &&& fell_back(a0.client, a1.client, k, r.1)
            &&& r.0 == (a0.client.mode is Insert && k.code is Char)
        },
    }
}

/// One turn of the key loop from `a0` to `a1`, with the effects `es`: the editor has buffers
/// and keys pressed, and, when `patient`, those keys cannot grow into a longer bound sequence;
/// then what they set off first runs.
pub open spec fn key_step(a0: App, a1: App, es: Seq<Effect>, patient: bool) -> bool {
    &&& a0.client.buffers@.len() > 0
    &&& a0.keymap@.len() > 0
    &&& patient ==> !waits(a0.bindings.table(a0.client.mode), a0.keymap@)
    &&& exists|flag: bool| stepped(a0, a1, (flag, es))
}

/// `k` turns of the key loop lead from the editor `client` with the bindings `bindings` and
/// the keys `keys` pressed to `a1`, with the effects `es` in order.
pub open spec fn key_steps(
    client: Client,
    bindings: Bindings,
    keys: Seq<Key>,
    a1: App,
    es: Seq<Effect>,
    k: nat,
    patient: bool,
) -> bool
    decreases k,
{
    if k == 0 {
        a1.client == client && a1.bindings == bindings && a1.keymap@ == keys && es.len() == 0
    } else {
        exists|mid: App, es1: Seq<Effect>, es2: Seq<Effect>|
            key_steps(client, bindings, keys, mid, es1, (k - 1) as nat, patient) && key_step(
                mid,
                a1,
                es2,
                patient,
            ) && es == es1 + es2
    }
}

impl App {
    /// The editor shows a buffer and is well formed, and so are the bindings.
    pub open spec fn wf(&self) -> bool {
        &&& self.client.wf()
        &&& self.bindings.wf()
    }

    /// The editor with the default bindings and no key pressed.
    pub fn new(client: Client) -> (r: App)
        requires
            client.wf(),
        ensures
            r.wf(),
            r.client == client,
            forall|mode: Mode| #[trigger] r.bindings.table(mode) == bindings_of(mode),
            r.keymap@.len() == 0,
    {
        App { client, bindings: Bindings::default(), keymap: Vec::new() }
    }

    /// Runs what the keys pressed so far set off first: the command of their longest bound
    /// beginning, which they then lose, or else what the first key does alone. Says whether
    /// something ran that has to reach the server.
    pub fn execute_top_keyevent(&mut self) -> (r: (bool, Vec<Effect>))
        requires
            old(self).wf(),
        ensures
            stepped(*old(self), *final(self), (r.0, r.1@)),
            final(self).client.buffers@.len() > 0 ==> final(self).wf(),
            old(self).keymap@.len() > 0 ==> exists|n: int|
                1 <= n <= old(self).keymap@.len() && final(self).keymap@ == old(self).keymap@.skip(n),
    {
        if self.keymap.len() == 0 {
            return (false, Vec::new());
        }
        let step = next_step(self.bindings.index(&self.client.mode), self.keymap.as_slice());
        match step {
            Step::Run(cmd, n) => {
                let out = self.client.run(cmd);
                self.keymap = drop_front(&self.keymap, n);
                (true, out)
            },
            Step::Fallback(k) => {
                let typed_now = match self.client.mode {
                    Mode::Insert => match k.code {
                        KeyCode::Char(_) => true,
                        _ => false,
                    },
                    _ => false,
                };
                let out = self.client.fallback(k);
                self.keymap = drop_front(&self.keymap, 1);
                proof {
                    assert(self.keymap@ =~= old(self).keymap@.drop_first());
                    assert(self.keymap@ == old(self).keymap@.skip(1));
                }
                (typed_now, out)
            },
        }
    }

    /// Takes a pressed key: runs what the keys pressed so far set off, as long as they cannot
    /// grow into a longer bound sequence and the editor has buffers left. Says whether the last
    /// thing run has to reach the server, and returns everything that has.
    pub fn handle_keyevent(&mut self, input: Key) -> (r: (bool, Vec<Effect>))
        requires
            old(self).wf(),
        ensures
            final(self).bindings == old(self).bindings,
            final(self).client.buffers@.len() > 0 ==> final(self).wf(),
            final(self).client.buffers@.len() > 0 ==> final(self).keymap@.len() == 0 || waits(
                final(self).bindings.table(final(self).client.mode),
                final(self).keymap@,
            ),
            exists|k: int|
                0 <= k <= old(self).keymap@.len() + 1 && final(self).keymap@ == old(
                    self,
                ).keymap@.push(input).skip(k),
            exists|k: nat|
                key_steps(
                    old(self).client,
                    old(self).bindings,
                    old(self).keymap@.push(input),
                    *final(self),
                    r.1@,
                    k,
                    true,
                ),
    {
        self.keymap.push(input);
        let ghost all = self.keymap@;
        let ghost mut turns: nat = 0;
        let mut should_flush = false;
        let mut out: Vec<Effect> = Vec::new();
        proof {
            assert(all.skip(0) =~= all);
            assert(key_steps(old(self).client, old(self).bindings, all, *self, out@, 0, true));
        }
        while self.client.buffers.len() > 0 && self.keymap.len() > 0 && !waits_for_more(
            self.bindings.index(&self.client.mode),
            self.keymap.as_slice(),
        )
            invariant
                self.client.buffers@.len() > 0 ==> self.wf(),
                self.bindings == old(self).bindings,
                self.bindings.wf(),
                all == old(self).keymap@.push(input),
                exists|k: int| 0 <= k <= all.len() && self.keymap@ == all.skip(k),
                key_steps(old(self).client, old(self).bindings, all, *self, out@, turns, true),
            decreases self.keymap@.len(),
        {
            let ghost before = self.keymap@;
            let ghost app0 = *self;
            let ghost out0 = out@;
            let (flush, mut es) = self.execute_top_keyevent();
            let ghost es_seq = es@;
            should_flush = flush;
            out.append(&mut es);
            proof {
                let k = choose|k: int| 0 <= k <= all.len() && before == all.skip(k);
                let n = choose|n: int| 1 <= n <= before.len() && self.keymap@ == before.skip(n);
                assert(self.keymap@ =~= all.skip(k + n));
                assert(stepped(app0, *self, (flush, es_seq)));
                assert(key_step(app0, *self, es_seq, true));
                assert(out@ == out0 + es_seq);
                turns = turns + 1;
                assert(key_steps(old(self).client, old(self).bindings, all, *self, out@, turns, true));
            }
        }
        let ghost outs = out@;
        let result = (should_flush, out);
        proof {
            assert(result.1@ == outs);
            assert(key_steps(
                old(self).client,
                old(self).bindings,
                old(self).keymap@.push(input),
                *self,
                result.1@,
                turns,
                true,
            ));
        }
        result
    }

    /// The pressed keys waited too long for more: runs what they set off, one after the other,
    /// while the editor has buffers left. Returns what has to reach the server.
    pub fn execute_keyevents(&mut self) -> (r: Vec<Effect>)
        requires
            old(self).wf(),
        ensures
            final(self).bindings == old(self).bindings,
            final(self).client.buffers@.len() > 0 ==> final(self).wf() && final(self).keymap@.len()
                == 0,
            exists|k: nat|
                key_steps(
                    old(self).client,
                    old(self).bindings,
                    old(self).keymap@,
                    *final(self),
                    r@,
                    k,
                    false,
                ),
    {
        let mut out: Vec<Effect> = Vec::new();
        let ghost mut turns: nat = 0;
        proof {
            assert(key_steps(old(self).client, old(self).bindings, old(self).keymap@, *self, out@, 0, false));
        }
        while self.client.buffers.len() > 0 && self.keymap.len() > 0
            invariant
                self.client.buffers@.len() > 0 ==> self.wf(),
                self.bindings == old(self).bindings,
                self.bindings.wf(),
                key_steps(old(self).client, old(self).bindings, old(self).keymap@, *self, out@, turns, false),
            decreases self.keymap@.len(),
        {
            let ghost app0 = *self;
            let ghost out0 = out@;
            let (flush, mut es) = self.execute_top_keyevent();
            let ghost es_seq = es@;
            out.append(&mut es);
            proof {
                assert(stepped(app0, *self, (flush, es_seq)));
                assert(key_step(app0, *self, es_seq, false));
                turns = turns + 1;
                assert(key_steps(old(self).client, old(self).bindings, old(self).keymap@, *self, out@, turns, false));
            }
        }
        out
    }
}

/// Moving up takes the cursor one line up, staying on the first line, never further right
/// than it was, and leaves the buffer otherwise alone.
pub proof fn law_move_up(b0: Buffer, b1: Buffer)
    requires
        moved_up(b0, b1),
    ensures
        b1.cursorpos.row == (if b0.cursorpos.row > 0 {
            b0.cursorpos.row - 1
        } else {
            0
        }),
        b1.cursorpos.col <= b0.cursorpos.col,
        b1.kind == b0.kind,
{
}

/// Moving down takes the cursor one line down while there is a line below, never further
/// right than it was, and leaves the buffer otherwise alone.
pub proof fn law_move_down(b0: Buffer, b1: Buffer)
    requires
        moved_down(b0, b1),
    ensures
        b0.cursorpos.row + 1 < b0.lines().len() && b0.cursorpos.row < usize::MAX
            ==> b1.cursorpos.row == b0.cursorpos.row + 1,
        b1.cursorpos.row <= b0.cursorpos.row + 1,
        b1.cursorpos.col <= b0.cursorpos.col,
        b1.kind == b0.kind,
{
}

/// Moving left takes the cursor one column left on its line, staying at the first column.
pub proof fn law_move_left(b0: Buffer, b1: Buffer)
    requires
        moved_left(b0, b1),
    ensures
        b1.cursorpos.row == b0.cursorpos.row,
        b1.cursorpos.col == (if b0.cursorpos.col > 0 {
            b0.cursorpos.col - 1
        } else {
            0
        }),
        b1.kind == b0.kind,
{
}

/// Moving right keeps the cursor on its line and takes it at most one column right; on a line
/// of the document, one column right while that is not past its last character.
pub proof fn law_move_right(b0: Buffer, b1: Buffer)
    requires
        moved_right(b0, b1),
    ensures
        b1.cursorpos.row == b0.cursorpos.row,
        b1.cursorpos.col <= b0.cursorpos.col + 1,
        b0.kind is Regular && b0.cursorpos.row < b0.lines().len() && b0.cursorpos.col + 2
            <= b0.lines()[b0.cursorpos.row as int].len() <= usize::MAX ==> b1.cursorpos.col
            == b0.cursorpos.col + 1,
        b1.kind == b0.kind,
{
}


/// The backspace message a buffer sends, replayed on an identical copy of the document by the
/// same client, deletes exactly when the buffer's own backspace did, and the same character:
/// both copies read the same afterwards.
pub proof fn law_backspace_message_replays(b0: Buffer, b1: Buffer, r: (Option<char>, Option<Effect>))
    requires
        b0.wf(),
        backspaced(b0, b1, r),
        b0.link is Some,
        b0.kind is Regular,
        b0.kind->text.members()[b0.kind->id as int].mode() is Some,
    ensures
        ({
            let (t0, id) = (b0.kind->text, b0.kind->id as int);
            let cl = t0.members()[id];
            &&& r.1 matches Some(Effect::Send(l, C2S::Backspace(s))) && l == b0.link->0 && ({
                &&& deletes_with_swaps(cl, t0.piece(), s as int) <==> r.0 is Some
                &&& r.0 is Some ==> t0.text().remove(deleted_point(cl, t0.piece(), s as int))
                    == b1.kind->text.text()
                &&& r.0 matches Some(ch) ==> ch == t0.text()[deleted_point(cl, t0.piece(), s as int)]
            })
        }),
{
    let (t0, id) = (b0.kind->text, b0.kind->id as int);
    law_backspace_replays(t0, id);
}

} // verus!
