//! A piece table with multiple clients. Besides the original text, every client has an append
//! buffer of its own, so inserts by one client never touch what another is typing. The
//! document is the concatenation of the pieces, each a slice of one of the buffers.
use vstd::prelude::*;
use vstd::string::StringSliceAdditionalSpecFns;
use vstd::utf8::*;

use crate::append_only_str::{AppendOnlyStr, Span, StrSlice};
use crate::encoding::{char_utf8_len, lemma_boundary_at_seam, lemma_decode_concat, lemma_empty_utf8, lemma_encode_concat};
use crate::table::{InnerTable, LockError, Table, TableReader, TableState, TableWriter};
use crate::utils::{AutoIncrementing, CursorPos};

verus! {

broadcast use vstd::seq::group_seq_axioms;

/// `String::push`: appends one character.
#[verifier::external_body]
pub(crate) fn string_push(s: &mut String, c: char)
    ensures
        final(s)@ == old(s)@.push(c),
{
    s.push(c)
}

/// A wrapper around all the buffers: the original buffer and the append buffer of each client,
/// each with the counter its client draws piece ids from.
#[derive(Debug)]
pub struct Buffers {
    /// The original file content together with its id generator.
    pub original: (AutoIncrementing, AppendOnlyStr),
    /// The append buffers of the clients.
    pub clients: Vec<(AutoIncrementing, AppendOnlyStr)>,
}

/// An element of the piece table.
#[derive(Debug)]
pub struct TableElem {
    /// The client buffer that `text` points into (`None` for the original buffer), and whether
    /// the element is being edited.
    pub buf: Option<(usize, bool)>,
    /// The id of this element.
    pub id: usize,
    /// A slice of the text.
    pub text: StrSlice,
}

/// A complete piece table. It has support for handling multiple clients at the same time.
#[derive(Debug)]
pub struct Piece {
    /// Holds the buffers that get modified when anyone inserts.
    pub buffers: Buffers,
    /// Stores the pieces to reconstruct the whole file.
    pub piece_table: Table<TableElem>,
}

/// The bytes of the pieces, concatenated.
pub open spec fn concat_bytes(pieces: Seq<TableElem>) -> Seq<u8>
    decreases pieces.len(),
{
    if pieces.len() == 0 {
        Seq::empty()
    } else {
        concat_bytes(pieces.drop_last()) + pieces.last().text.bytes()
    }
}

/// The characters of the pieces, concatenated.
pub open spec fn concat_text(pieces: Seq<TableElem>) -> Seq<char>
    decreases pieces.len(),
{
    if pieces.len() == 0 {
        Seq::empty()
    } else {
        concat_text(pieces.drop_last()) + pieces.last().text.text()
    }
}

/// The number of bytes before piece `k`.
pub open spec fn bytes_before(pieces: Seq<TableElem>, k: int) -> int {
    concat_bytes(pieces.take(k)).len() as int
}

/// Each piece's text is a well-formed slice.
pub open spec fn slices_wf(pieces: Seq<TableElem>) -> bool {
    forall|i: int| 0 <= i < pieces.len() ==> (#[trigger] pieces[i]).text.well_formed()
}

/// The bytes of well-formed pieces are valid UTF-8 and decode to their characters.
pub proof fn lemma_concat_valid(pieces: Seq<TableElem>)
    requires
        slices_wf(pieces),
    ensures
        valid_utf8(concat_bytes(pieces)),
        decode_utf8(concat_bytes(pieces)) == concat_text(pieces),
    decreases pieces.len(),
{
    if pieces.len() == 0 {
        lemma_empty_utf8();
    } else {
        let init = pieces.drop_last();
        assert forall|i: int| 0 <= i < init.len() implies (#[trigger] init[i]).text.well_formed() by {
            assert(init[i] == pieces[i]);
        }
        lemma_concat_valid(init);
        let last = pieces.last();
        assert(last.text.well_formed());
        crate::encoding::lemma_valid_between(
            last.text.buffer(),
            last.text.start() as int,
            last.text.end() as int,
        );
        lemma_decode_concat(concat_bytes(init), last.text.bytes());
    }
}

/// Splitting the pieces splits their bytes.
pub proof fn lemma_concat_split(pieces: Seq<TableElem>, k: int)
    requires
        0 <= k <= pieces.len(),
    ensures
        concat_bytes(pieces) == concat_bytes(pieces.take(k)) + concat_bytes(pieces.skip(k)),
        concat_text(pieces) == concat_text(pieces.take(k)) + concat_text(pieces.skip(k)),
    decreases pieces.len(),
{
    if k == pieces.len() {
        assert(pieces.take(k) =~= pieces);
        assert(pieces.skip(k) =~= Seq::<TableElem>::empty());
        assert(concat_bytes(pieces) + Seq::<u8>::empty() =~= concat_bytes(pieces));
        assert(concat_text(pieces) + Seq::<char>::empty() =~= concat_text(pieces));
    } else {
        let init = pieces.drop_last();
        lemma_concat_split(init, k);
        assert(init.take(k) =~= pieces.take(k));
        assert(pieces.skip(k).drop_last() =~= init.skip(k));
        assert(pieces.skip(k).last() == pieces.last());
        assert(concat_bytes(pieces) =~= concat_bytes(pieces.take(k)) + concat_bytes(pieces.skip(k)));
        assert(concat_text(pieces) =~= concat_text(pieces.take(k)) + concat_text(pieces.skip(k)));
    }
}

/// The bytes of a single piece.
pub proof fn lemma_concat_single(e: TableElem)
    ensures
        concat_bytes(seq![e]) == e.text.bytes(),
        concat_text(seq![e]) == e.text.text(),
{
    reveal_with_fuel(concat_bytes, 2);
    reveal_with_fuel(concat_text, 2);
    assert(seq![e].drop_last() =~= Seq::<TableElem>::empty());
    assert(Seq::<u8>::empty() + e.text.bytes() =~= e.text.bytes());
    assert(Seq::<char>::empty() + e.text.text() =~= e.text.text());
}

/// The bytes of two concatenated runs of pieces.
pub proof fn lemma_concat_append(a: Seq<TableElem>, b: Seq<TableElem>)
    ensures
        concat_bytes(a + b) == concat_bytes(a) + concat_bytes(b),
        concat_text(a + b) == concat_text(a) + concat_text(b),
{
    lemma_concat_split(a + b, a.len() as int);
    assert((a + b).take(a.len() as int) =~= a);
    assert((a + b).skip(a.len() as int) =~= b);
}

/// The lines of a text, as `Piece::lines` yields them: the text is cut at each newline, and a
/// last line is only there when something follows the last newline.
pub open spec fn split_lines(s: Seq<char>) -> Seq<Seq<char>>
    decreases s.len(),
{
    if s.len() == 0 {
        seq![]
    } else {
        let k = line_end(s);
        proof {
            lemma_line_end_bounds(s);
        }
        if k < s.len() {
            seq![s.subrange(0, k)] + split_lines(s.subrange(k + 1, s.len() as int))
        } else {
            seq![s]
        }
    }
}

/// The parts of `s` between its newlines, as splitting at each `'\n'` gives them: one more
/// than there are newlines, the last one empty when `s` ends with a newline.
pub open spec fn split_at_newlines(s: Seq<char>) -> Seq<Seq<char>>
    decreases s.len(),
{
    let k = line_end(s);
    proof {
        lemma_line_end_bounds(s);
    }
    if k < s.len() {
        seq![s.subrange(0, k)] + split_at_newlines(s.subrange(k + 1, s.len() as int))
    } else {
        seq![s]
    }
}

/// Splitting at newlines gives at least one part.
proof fn lemma_split_at_newlines_len(s: Seq<char>)
    ensures
        split_at_newlines(s).len() >= 1,
    decreases s.len(),
{
    lemma_line_end_bounds(s);
    if line_end(s) < s.len() {
        lemma_split_at_newlines_len(s.subrange(line_end(s) + 1, s.len() as int));
    }
}

/// The lines of a text are its parts between newlines, without the empty part after a final
/// newline; an empty text has no lines.
pub proof fn law_lines_split_at_newlines(s: Seq<char>)
    ensures
        split_lines(s) == (if s.len() == 0 {
            Seq::<Seq<char>>::empty()
        } else if split_at_newlines(s).last().len() == 0 {
            split_at_newlines(s).drop_last()
        } else {
            split_at_newlines(s)
        }),
    decreases s.len(),
{
    lemma_line_end_bounds(s);
    if s.len() > 0 {
        let k = line_end(s);
        if k < s.len() {
            let b = s.subrange(k + 1, s.len() as int);
            law_lines_split_at_newlines(b);
            lemma_split_at_newlines_len(b);
            let sb = split_at_newlines(b);
            let whole = seq![s.subrange(0, k)] + sb;
            assert(split_at_newlines(s) == whole);
            assert(whole.last() == sb.last());
            if b.len() == 0 {
                assert(line_end(b) == 0);
                assert(sb =~= seq![b]);
                assert(whole.drop_last() =~= seq![s.subrange(0, k)]);
                assert(split_lines(s) =~= seq![s.subrange(0, k)] + split_lines(b));
                assert(split_lines(b) =~= Seq::<Seq<char>>::empty());
            } else if sb.last().len() == 0 {
                assert(whole.drop_last() =~= seq![s.subrange(0, k)] + sb.drop_last());
            }
        } else {
            assert(s.len() > 0);
        }
    }
}

/// The index of the first newline of `s`, or its length when it has none.
pub open spec fn line_end(s: Seq<char>) -> int
    decreases s.len(),
{
    if s.len() == 0 {
        0
    } else if s[0] == '\n' {
        0
    } else {
        1 + line_end(s.drop_first())
    }
}

/// Where the first line of a text ends.
pub proof fn lemma_line_end_bounds(s: Seq<char>)
    ensures
        0 <= line_end(s) <= s.len(),
        line_end(s) < s.len() ==> s[line_end(s)] == '\n',
        forall|i: int| 0 <= i < line_end(s) ==> s[i] != '\n',
    decreases s.len(),
{
    if s.len() > 0 && s[0] != '\n' {
        lemma_line_end_bounds(s.drop_first());
        assert forall|i: int| 0 <= i < line_end(s) implies s[i] != '\n' by {
            if i > 0 {
                assert(s[i] == s.drop_first()[i - 1]);
            }
        }
    }
}

proof fn lemma_line_end_prefix(a: Seq<char>, b: Seq<char>)
    requires
        forall|i: int| 0 <= i < a.len() ==> a[i] != '\n',
    ensures
        line_end(a + b) == a.len() + line_end(b),
    decreases a.len(),
{
    if a.len() > 0 {
        assert((a + b)[0] == a[0]);
        assert((a + b).drop_first() =~= a.drop_first() + b);
        lemma_line_end_prefix(a.drop_first(), b);
    } else {
        assert(a + b =~= b);
    }
}

/// Splitting a text whose first line is `a`, ended by a newline, before `b`.
proof fn lemma_split_lines_newline(a: Seq<char>, b: Seq<char>)
    requires
        forall|i: int| 0 <= i < a.len() ==> a[i] != '\n',
    ensures
        split_lines(a + seq!['\n'] + b) == seq![a] + split_lines(b),
{
    let s = a + seq!['\n'] + b;
    assert(s =~= a + (seq!['\n'] + b));
    lemma_line_end_prefix(a, seq!['\n'] + b);
    assert(line_end(seq!['\n'] + b) == 0);
    assert(s.subrange(0, a.len() as int) =~= a);
    assert(s.subrange(a.len() + 1int, s.len() as int) =~= b);
}

/// Splitting a text without newlines.
proof fn lemma_split_lines_last(a: Seq<char>)
    requires
        forall|i: int| 0 <= i < a.len() ==> a[i] != '\n',
    ensures
        split_lines(a) == (if a.len() == 0 { seq![] } else { seq![a] }),
{
    if a.len() > 0 {
        lemma_line_end_prefix(a, Seq::<char>::empty());
        assert(a + Seq::<char>::empty() =~= a);
    }
}

/// The character index that a cursor on line `row`, column `col` designates: after `row`
/// newlines, then `col` characters on, but not past the end of that line. `None` when the text
/// has no line `row`.
pub open spec fn cursor_index(s: Seq<char>, row: nat, col: nat) -> Option<int>
    decreases row,
{
    let e = line_end(s);
    if s.len() == 0 {
        None
    } else if row == 0 {
        Some(if col < e { col as int } else { e })
    } else if e < s.len() {
        match cursor_index(s.skip(e + 1), (row - 1) as nat, col) {
            Some(i) => Some(e + 1 + i),
            None => None,
        }
    } else {
        None
    }
}

/// The byte offset of the cursor in the text, when the cursor lies before the text's end;
/// `None` when it is at the end or past it.
pub open spec fn cursor_offset(s: Seq<char>, pos: CursorPos) -> Option<int> {
    match cursor_index(s, pos.row as nat, pos.col as nat) {
        Some(m) => if m < s.len() {
            Some(encode_utf8(s.take(m)).len() as int)
        } else {
            None
        },
        None => None,
    }
}

/// The character index at which text typed at the cursor `pos` lands: where `cursor_index`
/// puts the cursor, or the end of the text when the cursor lies at or past it.
pub open spec fn insert_point(s: Seq<char>, pos: CursorPos) -> int {
    match cursor_index(s, pos.row as nat, pos.col as nat) {
        Some(m) => if m < s.len() {
            m
        } else {
            s.len() as int
        },
        None => s.len() as int,
    }
}

/// Text typed at a cursor lands within the text or at its end.
pub proof fn lemma_insert_point_bounds(s: Seq<char>, pos: CursorPos)
    ensures
        0 <= insert_point(s, pos) <= s.len(),
{
    lemma_cursor_index_bounds(s, pos.row as nat, pos.col as nat);
}

proof fn lemma_cursor_index_bounds(s: Seq<char>, row: nat, col: nat)
    ensures
        cursor_index(s, row, col) matches Some(m) ==> 0 <= m <= s.len(),
    decreases row,
{
    lemma_line_end_bounds(s);
    if s.len() > 0 && row > 0 && line_end(s) < s.len() {
        lemma_cursor_index_bounds(s.skip(line_end(s) + 1), (row - 1) as nat, col);
    }
}

/// A character boundary of the document that falls inside a piece is a character boundary of
/// that piece.
proof fn lemma_piece_boundary(pieces: Seq<TableElem>, k: int, b: int)
    requires
        slices_wf(pieces),
        0 <= k < pieces.len(),
        bytes_before(pieces, k) <= b < bytes_before(pieces, k + 1),
        is_char_boundary(concat_bytes(pieces), b),
    ensures
        is_char_boundary(pieces[k].text.bytes(), b - bytes_before(pieces, k)),
        valid_utf8(pieces[k].text.bytes()),
{
    let p = pieces[k];
    assert(p.text.well_formed());
    crate::encoding::lemma_valid_between(p.text.buffer(), p.text.start() as int, p.text.end() as int);
    lemma_concat_valid(pieces);
    let doc = concat_bytes(pieces);
    let a = concat_bytes(pieces.take(k));
    lemma_concat_split(pieces, k + 1);
    assert(pieces.take(k + 1).drop_last() =~= pieces.take(k));
    assert(pieces.take(k + 1).last() == p);
    let o = b - a.len();
    assert(concat_bytes(pieces.take(k + 1)) == a + p.text.bytes());
    if o > 0 {
        is_char_boundary_iff_not_is_continuation_byte(doc, b);
        is_char_boundary_iff_not_is_continuation_byte(p.text.bytes(), o);
        assert(doc[b] == p.text.bytes()[o]);
    }
}

/// The first newline at or after `from` is at `to` (or there is none and `to` is the end).
proof fn lemma_line_end_found(s: Seq<char>, from: int, to: int)
    requires
        0 <= from <= to <= s.len(),
        forall|i: int| from <= i < to ==> s[i] != '\n',
        to == s.len() || s[to] == '\n',
    ensures
        line_end(s.skip(from)) == to - from,
{
    let t = s.skip(from);
    lemma_line_end_bounds(t);
    let e = line_end(t);
    if e < to - from {
        assert(t[e] == s[from + e]);
    } else if e > to - from {
        assert(t[to - from] == s[to]);
    }
}

impl Buffers {
    /// The counter of client `i`.
    pub open spec fn counter(&self, i: int) -> nat {
        self.clients@[i].0.value()
    }

    /// The two buffer sets hold the same bytes, and the same counters except possibly the one
    /// of client `except`.
    pub open spec fn same_except_counter(&self, other: &Buffers, except: int) -> bool {
        &&& self.original == other.original
        &&& self.clients@.len() == other.clients@.len()
        &&& forall|i: int| 0 <= i < self.clients@.len() ==> (#[trigger] self.clients@[i]).1
            == other.clients@[i].1
        &&& forall|i: int|
            0 <= i < self.clients@.len() && i != except ==> (#[trigger] self.clients@[i]).0.value()
                == other.clients@[i].0.value()
    }

    /// Draws the next piece id of client `clientid`: the client's counter times the number of
    /// clients, plus the client's number.
    pub fn draw_id(&mut self, clientid: usize) -> (r: usize)
        requires
            old(self).wf(),
            clientid < old(self).clients@.len(),
            old(self).counter(clientid as int) < usize::MAX,
            old(self).counter(clientid as int) * old(self).clients@.len() + clientid
                <= usize::MAX,
        ensures
            final(self).wf(),
            r == old(self).counter(clientid as int) * old(self).clients@.len() + clientid,
            final(self).same_except_counter(old(self), clientid as int),
            final(self).counter(clientid as int) == old(self).counter(clientid as int) + 1,
    {
        let n = self.clients.len();
        let mut entry = (AutoIncrementing::new(), AppendOnlyStr::new());
        self.clients.set_and_swap(clientid, &mut entry);
        let c = entry.0.get();
        self.clients.set_and_swap(clientid, &mut entry);
        proof {
            assert(c * n + clientid <= usize::MAX);
        }
        c * n + clientid
    }

    /// The buffer a piece with the given `buf` field points into.
    pub open spec fn buffer_of(&self, buf: Option<(usize, bool)>) -> Seq<u8> {
        match buf {
            None => self.original.1@,
            Some((b, _)) => self.clients@[b as int].1@,
        }
    }

    /// The `buf` field names an existing buffer.
    pub open spec fn has_buffer(&self, buf: Option<(usize, bool)>) -> bool {
        match buf {
            None => true,
            Some((b, _)) => b < self.clients@.len(),
        }
    }

    /// Every buffer is well formed.
    pub open spec fn wf(&self) -> bool {
        &&& self.original.1.well_formed()
        &&& forall|i: int| 0 <= i < self.clients@.len() ==> (#[trigger] self.clients@[i]).1.well_formed()
    }
}

/// A piece lies in an existing buffer, as it was when the slice was taken: what the slice reads
/// is still what the buffer holds there.
pub open spec fn piece_in_buffers(e: TableElem, buffers: Buffers) -> bool {
    &&& e.text.well_formed()
    &&& buffers.has_buffer(e.buf)
    &&& e.text.buffer().len() <= buffers.buffer_of(e.buf).len()
    &&& buffers.buffer_of(e.buf).subrange(0, e.text.buffer().len() as int) == e.text.buffer()
}

/// `e` is an empty slice at the end of `buffer`.
pub open spec fn empty_at_end(e: TableElem, buffer: Seq<u8>) -> bool {
    &&& e.text.buffer() == buffer
    &&& e.text.start() == buffer.len()
    &&& e.text.end() == buffer.len()
}

/// `e` reads the bytes `start..end` of the buffer that `whole` reads from.
pub open spec fn part_of(e: TableElem, whole: TableElem, start: int, end: int) -> bool {
    &&& e.text.buffer() == whole.text.buffer()
    &&& e.text.start() == start
    &&& e.text.end() == end
}

/// `e` is the fresh piece a client inserts through: empty, at the end of its buffer, and
/// marked as edited by that client.
pub open spec fn client_piece(e: TableElem, buffers: Buffers, clientid: int, id: int) -> bool {
    &&& e.buf == Some((clientid as usize, true))
    &&& e.id == id
    &&& empty_at_end(e, buffers.clients@[clientid].1@)
}

/// Whether a piece lying in one buffer set still lies in another holding the same bytes.
proof fn lemma_in_same_buffers(e: TableElem, b1: Buffers, b2: Buffers)
    requires
        piece_in_buffers(e, b1),
        b1.original.1@ == b2.original.1@,
        b1.clients@.len() == b2.clients@.len(),
        forall|i: int| 0 <= i < b1.clients@.len() ==> (#[trigger] b1.clients@[i]).1@
            == b2.clients@[i].1@,
    ensures
        piece_in_buffers(e, b2),
{
    match e.buf {
        None => {},
        Some((b, _)) => {
            assert(b1.clients@[b as int].1@ == b2.clients@[b as int].1@);
        },
    }
}

/// What `insert_at` does when the cursor, at byte `b` of the document, lies before its end:
/// the piece holding byte `b` is split at offset `o` (unless `o` is 0), and the client's piece,
/// at position `idx`, goes in between.
pub open spec fn split_spec(
    ps: Seq<TableElem>,
    ks: Seq<usize>,
    nk: usize,
    bufs: Buffers,
    ps2: Seq<TableElem>,
    ks2: Seq<usize>,
    bufs2: Buffers,
    b: int,
    o: int,
    idx: int,
    cid: int,
) -> bool {
    let k = if o == 0 { idx } else { idx - 1 };
    let n = ps.len();
    let c = bufs.counter(cid);
    let nc = bufs.clients@.len();
    &&& 0 <= k < n
    &&& bytes_before(ps, k) <= b < bytes_before(ps, k + 1)
    &&& o == b - bytes_before(ps, k)
    &&& o != 0 ==> {
        let left = ps2[k];
        let right = ps2[k + 2];
        &&& ps2.len() == n + 2
        &&& ps2.take(k) == ps.take(k)
        &&& ps2.skip(k + 3) == ps.skip(k + 1)
        &&& left.buf == (match ps[k].buf {
            Some((x, _)) => Some((x, false)),
            None => None,
        })
        &&& left.id == c * nc + cid
        &&& part_of(left, ps[k], ps[k].text.start() as int, ps[k].text.start() + o)
        &&& client_piece(ps2[k + 1], bufs, cid, (c + 1) * nc + cid)
        &&& right.buf == ps[k].buf
        &&& right.id == ps[k].id
        &&& part_of(right, ps[k], ps[k].text.start() + o, ps[k].text.end() as int)
        &&& ks2 == ks.take(k) + seq![nk, (nk + 1) as usize, ks[k]] + ks.skip(k + 1)
        &&& bufs2.counter(cid) == c + 2
    }
    &&& o == 0 ==> {
        let right = ps2[k + 1];
        &&& ps2.len() == n + 1
        &&& ps2.take(k) == ps.take(k)
        &&& ps2.skip(k + 2) == ps.skip(k + 1)
        &&& client_piece(ps2[k], bufs, cid, c * nc + cid)
        &&& right.buf == ps[k].buf
        &&& right.id == ps[k].id
        &&& part_of(right, ps[k], ps[k].text.start() as int, ps[k].text.end() as int)
        &&& ks2 == ks.take(k) + seq![nk, ks[k]] + ks.skip(k + 1)
        &&& bufs2.counter(cid) == c + 1
    }
}

/// A cursor offset before the end of a text is a character boundary of its encoding.
proof fn lemma_cursor_offset_boundary(s: Seq<char>, pos: CursorPos)
    ensures
        cursor_offset(s, pos) matches Some(b) ==> {
            &&& 0 <= b < encode_utf8(s).len()
            &&& is_char_boundary(encode_utf8(s), b)
        },
{
    if cursor_offset(s, pos) is Some {
        let m = cursor_index(s, pos.row as nat, pos.col as nat).unwrap();
        lemma_cursor_index_bounds(s, pos.row as nat, pos.col as nat);
        lemma_encode_concat(s.take(m), s.skip(m));
        assert(s.take(m) + s.skip(m) =~= s);
        encode_utf8_valid_utf8(s.take(m));
        encode_utf8_valid_utf8(s.skip(m));
        lemma_boundary_at_seam(encode_utf8(s.take(m)), encode_utf8(s.skip(m)));
        assert(s.skip(m).len() > 0);
        assert(s.skip(m) =~= seq![s.skip(m)[0]] + s.skip(m).drop_first());
        lemma_encode_concat(seq![s.skip(m)[0]], s.skip(m).drop_first());
        encode_utf8_first_scalar(seq![s.skip(m)[0]]);
    }
}



/// Replacing piece `k` by a run of pieces holding the same bytes keeps the document's bytes.
proof fn lemma_replace_run(ps: Seq<TableElem>, k: int, mid: Seq<TableElem>)
    requires
        0 <= k < ps.len(),
        concat_bytes(mid) == ps[k].text.bytes(),
    ensures
        concat_bytes(ps.take(k) + mid + ps.skip(k + 1)) == concat_bytes(ps),
{
    lemma_concat_append(ps.take(k), mid);
    lemma_concat_append(ps.take(k) + mid, ps.skip(k + 1));
    lemma_concat_around(ps, k);
}

/// After `insert_at` with the cursor at or past the end, the pieces before the new client piece
/// hold the whole document.
proof fn lemma_insert_point_end(ps: Seq<TableElem>, ps2: Seq<TableElem>, pos: CursorPos)
    requires
        slices_wf(ps2),
        ps2.len() == ps.len() + 2,
        ps2.take(ps.len() as int) == ps,
        is_empty_piece(ps2[ps.len() as int]),
        cursor_offset(concat_text(ps), pos) is None,
    ensures
        concat_text(ps2.take(ps.len() + 1int)) == concat_text(ps).take(
            insert_point(concat_text(ps), pos),
        ),
{
    let txt = concat_text(ps);
    let n = ps.len() as int;
    lemma_cursor_index_bounds(txt, pos.row as nat, pos.col as nat);
    assert(ps2.take(n + 1) =~= ps + seq![ps2[n]]);
    lemma_concat_append(ps, seq![ps2[n]]);
    lemma_concat_single(ps2[n]);
    assert(ps2[n].text.well_formed());
    assert(ps2[n].text.bytes() =~= Seq::<u8>::empty());
    lemma_empty_utf8();
    assert(txt + Seq::<char>::empty() =~= txt);
    assert(txt.take(txt.len() as int) =~= txt);
}

/// After `insert_at` with the cursor before the end, the pieces before the new client piece
/// hold the document up to the cursor.
proof fn lemma_insert_point_split(
    ps: Seq<TableElem>,
    ks: Seq<usize>,
    nk: usize,
    bufs: Buffers,
    ps2: Seq<TableElem>,
    ks2: Seq<usize>,
    bufs2: Buffers,
    pos: CursorPos,
    o: int,
    idx: int,
    cid: int,
)
    requires
        slices_wf(ps),
        slices_wf(ps2),
        cursor_offset(concat_text(ps), pos) is Some,
        split_spec(ps, ks, nk, bufs, ps2, ks2, bufs2, cursor_offset(concat_text(ps), pos).unwrap(), o, idx, cid),
    ensures
        concat_text(ps2.take(idx)) == concat_text(ps).take(insert_point(concat_text(ps), pos)),
{
    let txt = concat_text(ps);
    let bytes = concat_bytes(ps);
    lemma_concat_valid(ps);
    lemma_cursor_index_bounds(txt, pos.row as nat, pos.col as nat);
    let m = cursor_index(txt, pos.row as nat, pos.col as nat).unwrap();
    let b = cursor_offset(txt, pos).unwrap();
    let k = if o == 0 { idx } else { idx - 1 };
    vstd::utf8::decode_utf8_encode_utf8(bytes);
    lemma_encode_concat(txt.take(m), txt.skip(m));
    assert(txt.take(m) + txt.skip(m) =~= txt);
    assert(bytes.take(b) =~= encode_utf8(txt.take(m)));
    lemma_concat_around(ps, k);
    let sub = ps2.take(idx);
    if o != 0 {
        assert(sub =~= ps.take(k) + seq![ps2[k]]);
        lemma_concat_append(ps.take(k), seq![ps2[k]]);
        lemma_concat_single(ps2[k]);
        assert(ps2[k].text.bytes() =~= ps[k].text.bytes().take(o));
    } else {
        assert(sub =~= ps.take(k));
    }
    assert(concat_bytes(sub) =~= bytes.take(b));
    assert forall|i: int| 0 <= i < sub.len() implies (#[trigger] sub[i]).text.well_formed() by {
        assert(sub[i] == ps2[i]);
    }
    lemma_concat_valid(sub);
    encode_utf8_decode_utf8(txt.take(m));
}

impl Piece {
    /// The pieces, in order.
    pub open spec fn pieces(&self) -> Seq<TableElem> {
        self.piece_table.items()
    }

    /// The bytes of the document.
    pub open spec fn bytes(&self) -> Seq<u8> {
        concat_bytes(self.pieces())
    }

    /// The characters of the document.
    pub open spec fn text(&self) -> Seq<char> {
        concat_text(self.pieces())
    }

    /// The buffers are well formed, the table is, and every piece lies in an existing buffer.
    pub open spec fn wf(&self) -> bool {
        &&& self.buffers.wf()
        &&& self.piece_table.wf()
        &&& forall|i: int|
            0 <= i < self.pieces().len() ==> piece_in_buffers(
                #[trigger] self.pieces()[i],
                self.buffers,
            )
    }

    /// The pieces of a well-formed table are well-formed slices.
    pub proof fn lemma_slices(&self)
        requires
            self.wf(),
        ensures
            slices_wf(self.pieces()),
            valid_utf8(self.bytes()),
            decode_utf8(self.bytes()) == self.text(),
    {
        assert forall|i: int| 0 <= i < self.pieces().len() implies (
        #[trigger] self.pieces()[i]).text.well_formed() by {
            assert(piece_in_buffers(self.pieces()[i], self.buffers));
        }
        lemma_concat_valid(self.pieces());
    }

    /// A table of the given original text, held in one piece.
    fn with_original(original: AppendOnlyStr) -> (r: Self)
        requires
            original.well_formed(),
        ensures
            r.wf(),
            r.buffers.original.1@ == original@,
            r.buffers.original.0.value() == 0,
            r.buffers.clients@.len() == 0,
            r.pieces().len() == 1,
            r.pieces()[0].buf is None,
            r.pieces()[0].id == 0,
            r.pieces()[0].text.start() == 0,
            r.pieces()[0].text.end() == original@.len(),
            r.bytes() == original@,
            r.piece_table.next_key() == 1,
            r.piece_table.lock_state() == TableState::Unshared,
    {
        let text = original.full_str_slice();
        let mut elems: Vec<TableElem> = Vec::new();
        elems.push(TableElem { id: 0, buf: None, text });
        let piece_table = Table::from_vec(elems);
        let r = Piece {
            piece_table,
            buffers: Buffers { original: (AutoIncrementing::new(), original), clients: Vec::new() },
        };
        proof {
            let e = r.pieces()[0];
            assert(r.pieces() =~= seq![e]);
            lemma_concat_single(e);
            assert(e.text.bytes() =~= original@);
            assert(original@.subrange(0, original@.len() as int) =~= original@);
        }
        r
    }

    /// Creates an empty piece table.
    pub fn new() -> (r: Self)
        ensures
            r.wf(),
            r.bytes() == Seq::<u8>::empty(),
            r.buffers.original.1@ == Seq::<u8>::empty(),
            r.buffers.clients@.len() == 0,
            r.pieces().len() == 1,
            r.buffers.original.0.value() == 0,
            r.pieces()[0].buf is None,
            r.pieces()[0].id == 0,
            r.pieces()[0].text.start() == 0,
            r.pieces()[0].text.end() == 0,
            r.piece_table.next_key() == 1,
            r.piece_table.lock_state() == TableState::Unshared,
    {
        Self::with_original(AppendOnlyStr::new())
    }

    /// Creates a piece table with `original` as its base.
    pub fn original_from_str(original: &str) -> (r: Self)
        requires
            original.spec_bytes().len() <= isize::MAX,
        ensures
            r.wf(),
            r.bytes() == original.spec_bytes(),
            r.text() == original@,
            r.buffers.original.1@ == original.spec_bytes(),
            r.buffers.original.0.value() == 0,
            r.buffers.clients@.len() == 0,
            r.pieces().len() == 1,
            r.pieces()[0].buf is None,
            r.pieces()[0].id == 0,
            r.pieces()[0].text.start() == 0,
            r.pieces()[0].text.end() == original.spec_bytes().len(),
            r.piece_table.next_key() == 1,
            r.piece_table.lock_state() == TableState::Unshared,
    {
        let buffer = AppendOnlyStr::from_str(original);
        let r = Self::with_original(buffer);
        proof {
            r.lemma_slices();
            encode_utf8_decode_utf8(original@);
        }
        r
    }

    /// Iterates over the piece table one char at the time.
    pub fn chars(&self) -> (r: Vec<char>)
        requires
            self.wf(),
        ensures
            r@ == self.text(),
    {
        proof {
            self.lemma_slices();
        }
        let elems = self.piece_table.elements();
        let mut out: Vec<char> = Vec::new();
        let mut i: usize = 0;
        while i < elems.len()
            invariant
                elems@ == self.piece_table.elems(),
                i <= elems@.len(),
                slices_wf(self.pieces()),
                out@ == concat_text(self.pieces().take(i as int)),
            decreases elems@.len() - i,
        {
            let mut part = elems[i].read().text.chars();
            proof {
                let ps = self.pieces();
                assert(ps.take(i + 1).drop_last() =~= ps.take(i as int));
                assert(ps.take(i + 1).last() == ps[i as int]);
                assert(ps[i as int] == elems@[i as int].value());
            }
            out.append(&mut part);
            i = i + 1;
        }
        proof {
            assert(self.pieces().take(i as int) =~= self.pieces());
        }
        out
    }

    /// The lines of the file, each as its characters.
    pub fn line_chars(&self) -> (r: Vec<Vec<char>>)
        requires
            self.wf(),
        ensures
            r@.map_values(|l: Vec<char>| l@) == split_lines(self.text()),
    {
        let chars = self.chars();
        let ghost all = chars@;
        let mut lines: Vec<Vec<char>> = Vec::new();
        let mut cur: Vec<char> = Vec::new();
        let mut i: usize = 0;
        proof {
            assert(cur@ + all.subrange(0, all.len() as int) =~= all);
            assert(lines@.map_values(|l: Vec<char>| l@) + split_lines(all) =~= split_lines(all));
        }
        while i < chars.len()
            invariant
                chars@ == all,
                i <= all.len(),
                forall|j: int| 0 <= j < cur@.len() ==> cur@[j] != '\n',
                lines@.map_values(|l: Vec<char>| l@) + split_lines(
                    cur@ + all.subrange(i as int, all.len() as int),
                ) == split_lines(all),
            decreases all.len() - i,
        {
            let c = chars[i];
            let ghost rest = all.subrange(i + 1, all.len() as int);
            proof {
                assert(all.subrange(i as int, all.len() as int) =~= seq![c] + rest);
            }
            if c == '\n' {
                proof {
                    lemma_split_lines_newline(cur@, rest);
                    assert(cur@ + (seq![c] + rest) =~= cur@ + seq!['\n'] + rest);
                }
                let line = cur;
                cur = Vec::new();
                let ghost prev = lines@;
                lines.push(line);
                proof {
                    assert(lines@.map_values(|l: Vec<char>| l@) =~= prev.map_values(
                        |l: Vec<char>| l@,
                    ) + seq![line@]);
                    assert(cur@ + rest =~= rest);
                }
            } else {
                proof {
                    assert(cur@ + (seq![c] + rest) =~= cur@.push(c) + rest);
                }
                cur.push(c);
            }
            i = i + 1;
        }
        proof {
            assert(cur@ + all.subrange(i as int, all.len() as int) =~= cur@);
            lemma_split_lines_last(cur@);
        }
        if cur.len() > 0 {
            let ghost prev = lines@;
            let line = cur;
            lines.push(line);
            proof {
                assert(lines@.map_values(|l: Vec<char>| l@) =~= prev.map_values(|l: Vec<char>| l@)
                    + seq![line@]);
            }
        } else {
            proof {
                assert(lines@.map_values(|l: Vec<char>| l@) + Seq::<Seq<char>>::empty()
                    =~= lines@.map_values(|l: Vec<char>| l@));
            }
        }
        lines
    }

    /// Creates an iterator over the lines of the file.
    pub fn lines(&self) -> (r: Vec<String>)
        requires
            self.wf(),
        ensures
            r@.map_values(|l: String| l@) == split_lines(self.text()),
    {
        let lines = self.line_chars();
        let mut out: Vec<String> = Vec::new();
        let mut i: usize = 0;
        while i < lines.len()
            invariant
                i <= lines@.len(),
                out@.map_values(|l: String| l@) == lines@.take(i as int).map_values(
                    |l: Vec<char>| l@,
                ),
            decreases lines@.len() - i,
        {
            let line = &lines[i];
            let mut s = String::new();
            let mut j: usize = 0;
            while j < line.len()
                invariant
                    j <= line@.len(),
                    s@ == line@.take(j as int),
                decreases line@.len() - j,
            {
                string_push(&mut s, line[j]);
                proof {
                    assert(line@.take(j as int).push(line@[j as int]) =~= line@.take(j + 1));
                }
                j = j + 1;
            }
            proof {
                assert(line@.take(j as int) =~= line@);
            }
            let ghost prev = out@;
            out.push(s);
            proof {
                assert(lines@.take(i + 1) =~= lines@.take(i as int).push(lines@[i as int]));
                assert(out@ =~= prev.push(s));
                assert(s@ == lines@[i as int]@);
                assert(out@.map_values(|l: String| l@) =~= prev.map_values(|l: String| l@).push(s@));
                assert(lines@.take(i + 1).map_values(|l: Vec<char>| l@) =~= lines@.take(
                    i as int,
                ).map_values(|l: Vec<char>| l@).push(lines@[i as int]@));
                assert(out@.map_values(|l: String| l@) =~= lines@.take(i + 1).map_values(
                    |l: Vec<char>| l@,
                ));
            }
            i = i + 1;
        }
        proof {
            assert(lines@.take(i as int) =~= lines@);
        }
        out
    }

    /// The byte offset of the cursor at `pos`, when it lies before the end of the document.
    pub fn cursor_byte(&self, pos: CursorPos) -> (r: Option<usize>)
        requires
            self.wf(),
            self.bytes().len() <= usize::MAX,
        ensures
            r matches Some(b) ==> cursor_offset(self.text(), pos) == Some(b as int),
            r is None ==> cursor_offset(self.text(), pos) is None,
    {
        let chars = self.chars();
        let ghost s = chars@;
        let n = chars.len();
        let mut j: usize = 0;
        let mut r: usize = 0;
        proof {
            assert(s.skip(0) =~= s);
        }
        while r < pos.row
            invariant
                chars@ == s,
                s == self.text(),
                n == s.len(),
                j <= n,
                r <= pos.row,
                cursor_index(s, pos.row as nat, pos.col as nat) == match cursor_index(
                    s.skip(j as int),
                    (pos.row - r) as nat,
                    pos.col as nat,
                ) {
                    Some(i) => Some(j + i),
                    None => None::<int>,
                },
            decreases pos.row - r,
        {
            let mut t = j;
            while t < n && chars[t] != '\n'
                invariant
                    chars@ == s,
                    s == self.text(),
                s == self.text(),
                    n == s.len(),
                    j <= t <= n,
                    forall|i: int| j <= i < t ==> s[i] != '\n',
                decreases n - t,
            {
                t = t + 1;
            }
            proof {
                lemma_line_end_found(s, j as int, t as int);
            }
            if t == n {
                proof {
                    let x = s.skip(j as int);
                    assert(x.len() == n - j);
                    assert(line_end(x) == x.len());
                    assert(cursor_index(x, (pos.row - r) as nat, pos.col as nat) is None);
                    assert(cursor_index(s, pos.row as nat, pos.col as nat) is None);
                    assert(s == self.text());
                    assert(cursor_offset(s, pos) is None);
                }
                return None;
            }
            proof {
                assert(s.skip(j as int).skip(t - j + 1) =~= s.skip(t + 1));
            }
            j = t + 1;
            r = r + 1;
        }
        if j == n {
            proof {
                assert(s.skip(j as int).len() == 0);
            }
            return None;
        }
        let mut t = j;
        while t < n && chars[t] != '\n' && t - j < pos.col
            invariant
                chars@ == s,
                s == self.text(),
                n == s.len(),
                j <= t <= n,
                t - j <= pos.col,
                forall|i: int| j <= i < t ==> s[i] != '\n',
            decreases n - t,
        {
            t = t + 1;
        }
        proof {
            let e = line_end(s.skip(j as int));
            lemma_line_end_bounds(s.skip(j as int));
            if t - j < pos.col {
                lemma_line_end_found(s, j as int, t as int);
            } else {
                assert(e >= t - j) by {
                    if e < t - j {
                        assert(s.skip(j as int)[e] == s[j + e]);
                    }
                }
            }
            assert(cursor_index(s, pos.row as nat, pos.col as nat) == Some(t as int));
        }
        if t == n {
            return None;
        }
        let mut b: usize = 0;
        let mut q: usize = 0;
        proof {
            self.lemma_slices();
            vstd::utf8::decode_utf8_encode_utf8(self.bytes());
            assert(s.take(0) =~= Seq::<char>::empty());
            lemma_encode_concat(s.take(t as int), s.skip(t as int));
            assert(s.take(t as int) + s.skip(t as int) =~= s);
        }
        while q < t
            invariant
                chars@ == s,
                s == self.text(),
                n == s.len(),
                q <= t < n,
                b == encode_utf8(s.take(q as int)).len(),
                encode_utf8(s).len() == self.bytes().len(),
                encode_utf8(s) == encode_utf8(s.take(t as int)) + encode_utf8(s.skip(t as int)),
                self.bytes().len() <= usize::MAX,
            decreases t - q,
        {
            let w = char_utf8_len(chars[q]);
            proof {
                lemma_encode_concat(s.take(q as int), seq![s[q as int]]);
                assert(s.take(q as int) + seq![s[q as int]] =~= s.take(q + 1));
                lemma_encode_concat(s.take(q + 1), s.subrange(q + 1, t as int));
                assert(s.take(q + 1) + s.subrange(q + 1, t as int) =~= s.take(t as int));
            }
            b = b + w;
            q = q + 1;
        }
        Some(b)
    }

    /// The piece the byte at offset `b` of the document lies in, and the offset where that
    /// piece starts.
    pub fn find_piece(&self, b: usize) -> (r: (usize, usize))
        requires
            self.wf(),
            b < self.bytes().len(),
        ensures
            r.0 < self.pieces().len(),
            r.1 == bytes_before(self.pieces(), r.0 as int),
            bytes_before(self.pieces(), r.0 as int) <= b < bytes_before(
                self.pieces(),
                r.0 + 1,
            ),
    {
        let ghost ps = self.pieces();
        let elems = self.piece_table.elements();
        let n = elems.len();
        let mut k: usize = 0;
        let mut acc: usize = 0;
        proof {
            assert(ps.take(0) =~= Seq::<TableElem>::empty());
            assert(ps.take(n as int) =~= ps);
        }
        loop
            invariant
                elems@ == self.piece_table.elems(),
                ps == self.pieces(),
                n == ps.len(),
                k < n || (k == n && acc == self.bytes().len()),
                acc == bytes_before(ps, k as int),
                acc <= b,
                b < self.bytes().len(),
                self.bytes() == concat_bytes(ps),
                ps.take(n as int) == ps,
            decreases n - k,
        {
            if k == n {
                assert(false);
            }
            let len = elems[k].read().text.len();
            proof {
                assert(ps[k as int] == elems@[k as int].value());
                assert(ps.take(k + 1).drop_last() =~= ps.take(k as int));
                assert(ps.take(k + 1).last() == ps[k as int]);
                lemma_concat_split(ps, k + 1);
            }
            if b - acc < len {
                return (k, acc);
            }
            acc = acc + len;
            k = k + 1;
        }
    }

    /// The part of `insert_at` for a cursor at or past the end of the document: an empty piece
    /// at the end of the buffer of the last piece, then the client's piece, are appended.
    fn insert_at_end(&mut self, clientid: usize) -> (r: usize)
        requires
            old(self).piece_table.lock_state() is Exclusive,
            old(self).wf(),
            old(self).pieces().len() >= 1,
            clientid < old(self).buffers.clients@.len(),
            old(self).piece_table.next_key() + 2 <= usize::MAX,
            (old(self).buffers.counter(clientid as int) + 2) * old(self).buffers.clients@.len()
                + clientid <= usize::MAX,
        ensures
            final(self).wf(),
            final(self).bytes() == old(self).bytes(),
            final(self).buffers.same_except_counter(&old(self).buffers, clientid as int),
            final(self).piece_table.lock_state() == old(self).piece_table.lock_state(),
            ({
                let ps = old(self).pieces();
                let ks = old(self).piece_table.keys();
                let nk = old(self).piece_table.next_key();
                let n = ps.len();
                let bufs = old(self).buffers;
                let c = bufs.counter(clientid as int);
                let nc = bufs.clients@.len();
                let cid = clientid as int;
                &&& r == n + 1
                &&& final(self).pieces().len() == n + 2
                &&& final(self).pieces().take(n as int) == ps
                &&& final(self).pieces()[n as int].buf == ps[n - 1].buf
                &&& final(self).pieces()[n as int].id == c * nc + cid
                &&& empty_at_end(final(self).pieces()[n as int], bufs.buffer_of(ps[n - 1].buf))
                &&& client_piece(final(self).pieces()[n + 1int], bufs, cid, (c + 1) * nc + cid)
                &&& final(self).piece_table.keys() == ks.push(nk).push((nk + 1) as usize)
                &&& final(self).buffers.counter(cid) == c + 2
                &&& final(self).piece_table.next_key() == nk + 2
            }),
    {
        let ghost old_self = *self;
        let ghost ps = self.pieces();
        let n = self.piece_table.len();
        let nclients = self.buffers.clients.len();
        let ghost c = self.buffers.counter(clientid as int);
        proof {
            self.piece_table.lemma_lengths();
            assert(c * nclients + clientid <= (c + 2) * nclients + clientid) by (nonlinear_arith)
                requires nclients >= 1;
            assert((c + 1) * nclients + clientid <= (c + 2) * nclients + clientid) by (nonlinear_arith)
                requires nclients >= 1;
            assert(c + 1 < usize::MAX) by (nonlinear_arith)
                requires (c + 2) * nclients + clientid <= usize::MAX, nclients >= 1;
        }
        let last_buf = self.piece_table.get(n - 1).read().buf;
        proof {
            assert(piece_in_buffers(ps[n - 1], self.buffers));
        }
        let extra_text = match last_buf {
            None => self.buffers.original.1.str_slice_end(),
            Some((bb, _)) => self.buffers.clients[bb].1.str_slice_end(),
        };
        let id = self.buffers.draw_id(clientid);
        self.piece_table.insert(n, TableElem { buf: last_buf, text: extra_text, id });
        let client_text = self.buffers.clients[clientid].1.str_slice_end();
        let id2 = self.buffers.draw_id(clientid);
        let n1 = self.piece_table.len();
        self.piece_table.insert(
            n1,
            TableElem { buf: Some((clientid, true)), text: client_text, id: id2 },
        );
        proof {
            let ps2 = self.pieces();
            let e0 = ps2[n as int];
            let e1 = ps2[n + 1];
            assert(ps2 =~= ps.push(e0).push(e1));
            assert(ps2.take(n as int) =~= ps);
            assert forall|i: int| 0 <= i < ps2.len() implies piece_in_buffers(
                #[trigger] ps2[i],
                self.buffers,
            ) by {
                if i < n {
                    assert(ps2[i] == ps[i]);
                    assert(piece_in_buffers(ps[i], old_self.buffers));
                    lemma_in_same_buffers(ps[i], old_self.buffers, self.buffers);
                } else if i == n {
                    assert(e0.text.buffer().subrange(0, e0.text.buffer().len() as int) =~= e0.text.buffer());
                } else {
                    assert(e1.text.buffer().subrange(0, e1.text.buffer().len() as int) =~= e1.text.buffer());
                }
            }
            lemma_concat_append(ps, seq![e0, e1]);
            lemma_concat_append(seq![e0], seq![e1]);
            lemma_concat_single(e0);
            lemma_concat_single(e1);
            assert(seq![e0] + seq![e1] =~= seq![e0, e1]);
            assert(ps + seq![e0, e1] =~= ps2);
            assert(e0.text.bytes() =~= Seq::<u8>::empty());
            assert(e1.text.bytes() =~= Seq::<u8>::empty());
            assert(concat_bytes(ps2) =~= concat_bytes(ps));
        }
        n1
    }

    /// The part of `insert_at` for a cursor at byte `b`, before the end of the document.
    #[verifier::rlimit(100)]
    #[verifier::spinoff_prover]
    fn split_insert(&mut self, b: usize, clientid: usize) -> (r: (usize, usize))
        requires
            old(self).piece_table.lock_state() is Exclusive,
            old(self).wf(),
            b < old(self).bytes().len(),
            is_char_boundary(old(self).bytes(), b as int),
            clientid < old(self).buffers.clients@.len(),
            old(self).piece_table.next_key() + 2 <= usize::MAX,
            (old(self).buffers.counter(clientid as int) + 2) * old(self).buffers.clients@.len()
                + clientid <= usize::MAX,
        ensures
            final(self).wf(),
            final(self).bytes() == old(self).bytes(),
            final(self).buffers.same_except_counter(&old(self).buffers, clientid as int),
            final(self).piece_table.lock_state() == old(self).piece_table.lock_state(),
            split_spec(old(self).pieces(), old(self).piece_table.keys(), old(self).piece_table.next_key(),
                old(self).buffers, final(self).pieces(), final(self).piece_table.keys(),
                final(self).buffers, b as int, r.0 as int, r.1 as int, clientid as int),
    {
        let ghost old_self = *self;
        let ghost ps = self.pieces();
        let nclients = self.buffers.clients.len();
        let ghost c = self.buffers.counter(clientid as int);
        proof {
            self.piece_table.lemma_lengths();
            self.lemma_slices();
            assert(c * nclients + clientid <= (c + 2) * nclients + clientid) by (nonlinear_arith)
                requires nclients >= 1;
            assert((c + 1) * nclients + clientid <= (c + 2) * nclients + clientid) by (nonlinear_arith)
                requires nclients >= 1;
            assert(c + 1 < usize::MAX) by (nonlinear_arith)
                requires (c + 2) * nclients + clientid <= usize::MAX, nclients >= 1;
        }
        let n = self.piece_table.len();
        let (k0, start) = self.find_piece(b);
        proof {
            lemma_piece_boundary(ps, k0 as int, b as int);
            assert(k0 < n);
        }
        let buf_of_split = self.piece_table.get(k0).read().buf;
        let cur_id = self.piece_table.get(k0).read().id;
        let current = self.piece_table.get(k0).read().text.duplicate();
        let offset = b - start;
        let mut k = k0;
        let ghost e = ps[k0 as int];
        proof {
            assert(piece_in_buffers(e, old_self.buffers));
            assert(current.bytes() == e.text.bytes());
            is_char_boundary_start_end_of_seq(current.bytes());
            lemma_concat_split(ps, k0 + 1);
            assert(ps.take(k0 + 1).drop_last() =~= ps.take(k0 as int));
            assert(ps.take(k0 + 1).last() == e);
        }
        if offset != 0 {
            let left = current.subslice(Span::up_to(offset)).unwrap();
            let id = self.buffers.draw_id(clientid);
            let lbuf = match buf_of_split {
                Some((x, _)) => Some((x, false)),
                None => None,
            };
            self.piece_table.insert(k, TableElem { buf: lbuf, text: left, id });
            k = k + 1;
        }
        let right = current.subslice(Span::starting_at(offset)).unwrap();
        let _old = self.piece_table.replace(
            k,
            TableElem { buf: buf_of_split, id: cur_id, text: right },
        );
        let client_text = self.buffers.clients[clientid].1.str_slice_end();
        let id2 = self.buffers.draw_id(clientid);
        self.piece_table.insert(
            k,
            TableElem { buf: Some((clientid, true)), text: client_text, id: id2 },
        );
        proof {
            let ps2 = self.pieces();
            let kk = k0 as int;
            let mid = if offset != 0 {
                seq![ps2[kk], ps2[kk + 1], ps2[kk + 2]]
            } else {
                seq![ps2[kk], ps2[kk + 1]]
            };
            assert(ps2 =~= ps.take(kk) + mid + ps.skip(kk + 1));
            assert forall|i: int| 0 <= i < ps2.len() implies piece_in_buffers(
                #[trigger] ps2[i],
                self.buffers,
            ) by {
                if i < kk {
                    assert(ps2[i] == ps[i]);
                    assert(piece_in_buffers(ps[i], old_self.buffers));
                    lemma_in_same_buffers(ps[i], old_self.buffers, self.buffers);
                } else if i >= kk + mid.len() {
                    let j = i - mid.len() + 1;
                    assert(ps2[i] == ps[j]);
                    assert(piece_in_buffers(ps[j], old_self.buffers));
                    lemma_in_same_buffers(ps[j], old_self.buffers, self.buffers);
                } else if i == k {
                    assert(client_text.buffer().subrange(0, client_text.buffer().len() as int)
                        =~= client_text.buffer());
                } else {
                    lemma_in_same_buffers(e, old_self.buffers, self.buffers);
                }
            }
            // the bytes are those of the old pieces
            let eb = e.text.bytes();
            assert(concat_bytes(mid) == eb) by {
            if offset != 0 {
                assert(ps2[kk].text.bytes() =~= eb.subrange(0, offset as int));
                assert(ps2[kk + 2].text.bytes() =~= eb.subrange(offset as int, eb.len() as int));
                lemma_concat_single(ps2[kk]);
                lemma_concat_single(ps2[kk + 1]);
                lemma_concat_single(ps2[kk + 2]);
                lemma_concat_append(seq![ps2[kk]], seq![ps2[kk + 1]]);
                assert(seq![ps2[kk]] + seq![ps2[kk + 1]] =~= seq![ps2[kk], ps2[kk + 1]]);
                lemma_concat_append(seq![ps2[kk], ps2[kk + 1]], seq![ps2[kk + 2]]);
                assert(seq![ps2[kk], ps2[kk + 1]] + seq![ps2[kk + 2]] =~= mid);
                assert(concat_bytes(mid) =~= eb);
            } else {
                assert(ps2[kk + 1].text.bytes() =~= eb);
                lemma_concat_single(ps2[kk]);
                lemma_concat_single(ps2[kk + 1]);
                lemma_concat_append(seq![ps2[kk]], seq![ps2[kk + 1]]);
                assert(seq![ps2[kk]] + seq![ps2[kk + 1]] =~= mid);
                assert(concat_bytes(mid) =~= eb);
            }
            }
            lemma_replace_run(ps, kk, mid);
            let ks = old_self.piece_table.keys();
            let nk = old_self.piece_table.next_key();
            if offset != 0 {
                assert(self.piece_table.keys() =~= ks.take(kk) + seq![nk, (nk + 1) as usize, ks[kk]] + ks.skip(kk + 1));
                assert(ps2.skip(kk + 3) =~= ps.skip(kk + 1));
                assert(ps2.take(kk) =~= ps.take(kk));
            } else {
                assert(self.piece_table.keys() =~= ks.take(kk) + seq![nk, ks[kk]] + ks.skip(kk + 1));
                assert(ps2.skip(kk + 2) =~= ps.skip(kk + 1));
                assert(ps2.take(kk) =~= ps.take(kk));
            }
        }
        (offset, k)
    }

    /// Splits the piece table at the cursor `pos` and inserts there an empty piece for client
    /// `clientid` to type into. Returns the offset within the piece that got split (`None` when
    /// the cursor is at or past the end of the document) and the position of the new piece.
    pub fn insert_at(&mut self, pos: CursorPos, clientid: usize) -> (r: Option<
        (Option<usize>, usize),
    >)
        requires
            old(self).wf(),
            old(self).pieces().len() >= 1,
            clientid < old(self).buffers.clients@.len(),
            old(self).bytes().len() < usize::MAX,
            old(self).piece_table.next_key() + 2 <= usize::MAX,
            (old(self).buffers.counter(clientid as int) + 2) * old(self).buffers.clients@.len()
                + clientid <= usize::MAX,
            old(self).piece_table.lock_state().can_lock_full_mut(),
        ensures
            final(self).wf(),
            final(self).bytes() == old(self).bytes(),
            final(self).buffers.same_except_counter(&old(self).buffers, clientid as int),
            final(self).piece_table.lock_state() == old(
                self,
            ).piece_table.lock_state().after_lock_full_mut().after_drop_full_mut(),
            r is Some,
            ({
                let (offset, idx) = r.unwrap();
                let ps = old(self).pieces();
                let ks = old(self).piece_table.keys();
                let nk = old(self).piece_table.next_key();
                let n = ps.len();
                let bufs = old(self).buffers;
                let c = bufs.counter(clientid as int);
                let nc = bufs.clients@.len();
                let cid = clientid as int;
                &&& offset is None <==> cursor_offset(old(self).text(), pos) is None
                &&& offset is None ==> {
                    &&& idx == n + 1
                    &&& final(self).pieces().len() == n + 2
                    &&& final(self).pieces().take(n as int) == ps
                    &&& final(self).pieces()[n as int].buf == ps[n - 1].buf
                    &&& final(self).pieces()[n as int].id == c * nc + cid
                    &&& empty_at_end(final(self).pieces()[n as int], bufs.buffer_of(ps[n - 1].buf))
                    &&& client_piece(final(self).pieces()[n + 1int], bufs, cid, (c + 1) * nc + cid)
                    &&& final(self).piece_table.keys() == ks.push(nk).push((nk + 1) as usize)
                    &&& final(self).buffers.counter(cid) == c + 2
                }
                &&& offset matches Some(o) ==> {
                    let b = cursor_offset(old(self).text(), pos).unwrap();
                    split_spec(ps, ks, nk, bufs, final(self).pieces(), final(self).piece_table.keys(),
                        final(self).buffers, b, o as int, idx as int, cid)
                }
                &&& concat_text(final(self).pieces().take(idx as int)) == old(self).text().take(
                    insert_point(old(self).text(), pos),
                )
            }),
    {
        let ghost old_self = *self;
        let b_opt = self.cursor_byte(pos);
        let writer = self.piece_table.write_full().unwrap();
        let r = match b_opt {
            None => {
                let idx = self.insert_at_end(clientid);
                (None, idx)
            },
            Some(b) => {
                proof {
                    old_self.lemma_slices();
                    lemma_cursor_offset_boundary(old_self.text(), pos);
                    vstd::utf8::decode_utf8_encode_utf8(old_self.bytes());
                }
                let (o, idx) = self.split_insert(b, clientid);
                (Some(o), idx)
            },
        };
        self.piece_table.release_writer(writer);
        proof {
            old_self.lemma_slices();
            self.lemma_slices();
            match r.0 {
                None => lemma_insert_point_end(old_self.pieces(), self.pieces(), pos),
                Some(o) => lemma_insert_point_split(
                    old_self.pieces(),
                    old_self.piece_table.keys(),
                    old_self.piece_table.next_key(),
                    old_self.buffers,
                    self.pieces(),
                    self.piece_table.keys(),
                    self.buffers,
                    pos,
                    o as int,
                    r.1 as int,
                    clientid as int,
                ),
            }
        }
        Some(r)
    }

    /// The elements of the piece table, in order.
    pub fn bufs(&self) -> (r: &[InnerTable<TableElem>])
        ensures
            r@ == self.piece_table.elems(),
    {
        self.piece_table.elements()
    }

    /// Locks the full list for reading. This fails while anything holds a write lock.
    pub fn read_full(&mut self) -> (r: Result<TableReader, LockError>)
        requires
            old(self).wf(),
            old(self).piece_table.lock_state().full_reads() < usize::MAX,
        ensures
            final(self).wf(),
            final(self).pieces() == old(self).pieces(),
            r is Ok <==> old(self).piece_table.lock_state().can_lock_full(),
    {
        let r = self.piece_table.read_full();
        proof {
            assert(self.pieces() =~= old(self).pieces());
        }
        r
    }

    /// Locks the order of the full list for writing. This fails while a full-list lock is held.
    pub fn write_full(&mut self) -> (r: Result<TableWriter, LockError>)
        requires
            old(self).wf(),
        ensures
            final(self).wf(),
            final(self).pieces() == old(self).pieces(),
            r is Ok <==> old(self).piece_table.lock_state().can_lock_full_mut(),
    {
        let r = self.piece_table.write_full();
        proof {
            assert(self.pieces() =~= old(self).pieces());
        }
        r
    }
}


/// Whether a piece holds no text.
pub open spec fn is_empty_piece(e: TableElem) -> bool {
    e.text.start() == e.text.end()
}

/// `s` with its element at `p` moved back to position `a`, the elements `a..p` each shifted one
/// place on.
pub open spec fn rotate<A>(s: Seq<A>, a: int, p: int) -> Seq<A> {
    s.take(a) + seq![s[p]] + s.subrange(a, p) + s.skip(p + 1)
}

/// The position of the last piece before `p` that holds text, or -1 when there is none.
pub open spec fn last_nonempty_before(ps: Seq<TableElem>, p: int) -> int
    decreases p,
{
    if p <= 0 {
        -1
    } else if !is_empty_piece(ps[p - 1]) {
        p - 1
    } else {
        last_nonempty_before(ps, p - 1)
    }
}

/// The buffer marking `buf` with the editing flag cleared.
pub open spec fn unoccupied(buf: Option<(usize, bool)>) -> Option<(usize, bool)> {
    match buf {
        Some((b, _)) => Some((b, false)),
        None => None,
    }
}

/// What `last_nonempty_before` finds: a piece with text, after which only empty pieces come.
pub proof fn lemma_last_nonempty_before(ps: Seq<TableElem>, p: int)
    requires
        0 <= p <= ps.len(),
    ensures
        -1 <= last_nonempty_before(ps, p) < p,
        last_nonempty_before(ps, p) >= 0 ==> !is_empty_piece(ps[last_nonempty_before(ps, p)]),
        forall|i: int| last_nonempty_before(ps, p) < i < p ==> is_empty_piece(#[trigger] ps[i]),
    decreases p,
{
    if p > 0 && is_empty_piece(ps[p - 1]) {
        lemma_last_nonempty_before(ps, p - 1);
    }
}

/// Pieces that hold no text concatenate to nothing.
pub proof fn lemma_concat_empty(ps: Seq<TableElem>)
    requires
        slices_wf(ps),
        forall|i: int| 0 <= i < ps.len() ==> is_empty_piece(#[trigger] ps[i]),
    ensures
        concat_bytes(ps) == Seq::<u8>::empty(),
        concat_text(ps) == Seq::<char>::empty(),
    decreases ps.len(),
{
    if ps.len() > 0 {
        let init = ps.drop_last();
        assert forall|i: int| 0 <= i < init.len() implies is_empty_piece(#[trigger] init[i])
            && init[i].text.well_formed() by {
            assert(init[i] == ps[i]);
        }
        lemma_concat_empty(init);
        let e = ps.last();
        assert(is_empty_piece(ps[ps.len() - 1]));
        assert(ps[ps.len() - 1].text.well_formed());
        assert(e.text.bytes() =~= Seq::<u8>::empty());
        lemma_empty_utf8();
        assert(concat_bytes(ps) =~= Seq::<u8>::empty());
        assert(concat_text(ps) =~= Seq::<char>::empty());
    }
}

/// Moving a piece back over pieces that hold no text leaves the document as it was.
pub proof fn lemma_rotate_concat(ps: Seq<TableElem>, a: int, p: int)
    requires
        slices_wf(ps),
        0 <= a <= p < ps.len(),
        forall|i: int| a <= i < p ==> is_empty_piece(#[trigger] ps[i]),
    ensures
        concat_bytes(rotate(ps, a, p)) == concat_bytes(ps),
        concat_text(rotate(ps, a, p)) == concat_text(ps),
{
    let mid = ps.subrange(a, p);
    assert forall|i: int| 0 <= i < mid.len() implies is_empty_piece(#[trigger] mid[i])
        && mid[i].text.well_formed() by {
        assert(mid[i] == ps[a + i]);
    }
    lemma_concat_empty(mid);
    let x = seq![ps[p]];
    let pre = ps.take(a);
    let post = ps.skip(p + 1);
    assert(ps =~= pre + mid + x + post);
    lemma_concat_append(pre, mid);
    lemma_concat_append(pre + mid, x);
    lemma_concat_append(pre + mid + x, post);
    lemma_concat_append(pre, x);
    lemma_concat_append(pre + x, mid);
    lemma_concat_append(pre + x + mid, post);
    assert(concat_bytes(pre) + Seq::<u8>::empty() =~= concat_bytes(pre));
    assert(concat_text(pre) + Seq::<char>::empty() =~= concat_text(pre));
    assert(concat_bytes(pre + x) + Seq::<u8>::empty() =~= concat_bytes(pre + x));
    assert(concat_text(pre + x) + Seq::<char>::empty() =~= concat_text(pre + x));
}

impl Piece {
    /// Moves the piece at position `from` so that it ends up at position `to`.
    pub fn move_piece(&mut self, from: usize, to: usize)
        requires
            old(self).piece_table.lock_state() is Exclusive,
            old(self).wf(),
            from < old(self).pieces().len(),
            to < old(self).pieces().len(),
        ensures
            final(self).wf(),
            final(self).buffers == old(self).buffers,
            final(self).pieces() == old(self).pieces().remove(from as int).insert(
                to as int,
                old(self).pieces()[from as int],
            ),
            final(self).piece_table.keys() == old(self).piece_table.keys().remove(
                from as int,
            ).insert(to as int, old(self).piece_table.keys()[from as int]),
            final(self).piece_table.next_key() == old(self).piece_table.next_key(),
            final(self).piece_table.lock_state() == old(self).piece_table.lock_state(),
    {
        proof {
            self.piece_table.lemma_lengths();
        }
        self.piece_table.move_item(from, to);
        proof {
            let ps = old(self).pieces();
            let ps2 = ps.remove(from as int).insert(to as int, ps[from as int]);
            assert(self.pieces() =~= ps2);
            assert(self.piece_table.keys() =~= old(self).piece_table.keys().remove(
                from as int,
            ).insert(to as int, old(self).piece_table.keys()[from as int]));
            assert forall|i: int| 0 <= i < ps2.len() implies piece_in_buffers(
                #[trigger] ps2[i],
                self.buffers,
            ) by {
                let j = if i < to {
                    if i < from { i } else { i + 1 }
                } else if i == to {
                    from as int
                } else {
                    if i - 1 < from { i - 1 } else { i }
                };
                assert(ps2[i] == ps[j]);
                assert(piece_in_buffers(ps[j], old(self).buffers));
            }
        }
    }

    /// Removes the last character of the piece at position `i`, which holds text, and returns it.
    pub fn shrink_piece(&mut self, i: usize) -> (r: char)
        requires
            !(old(self).piece_table.lock_state() is Shared),
            old(self).wf(),
            i < old(self).pieces().len(),
            !is_empty_piece(old(self).pieces()[i as int]),
        ensures
            final(self).wf(),
            final(self).buffers == old(self).buffers,
            final(self).piece_table.keys() == old(self).piece_table.keys(),
            final(self).piece_table.next_key() == old(self).piece_table.next_key(),
            final(self).piece_table.lock_state() == old(self).piece_table.lock_state(),
            ({
                let e = old(self).pieces()[i as int];
                let e2 = final(self).pieces()[i as int];
                &&& final(self).pieces() == old(self).pieces().update(i as int, e2)
                &&& e2.buf == e.buf
                &&& e2.id == e.id
                &&& e2.text.buffer() == e.text.buffer()
                &&& e2.text.start() == e.text.start()
                &&& e2.text.end() == e.text.end() - encode_utf8(seq![r]).len()
                &&& e.text.text().len() > 0
                &&& r == e.text.text().last()
                &&& e2.text.text() == e.text.text().drop_last()
                &&& e2.text.bytes() == encode_utf8(e.text.text().drop_last())
                &&& e.text.bytes() == encode_utf8(e.text.text())
            }),
    {
        let ghost e = self.pieces()[i as int];
        proof {
            self.piece_table.lemma_lengths();
            assert(piece_in_buffers(e, self.buffers));
        }
        let t = &self.piece_table.get(i).read().text;
        let len = t.len();
        let chars = t.chars();
        let ghost bytes = e.text.bytes();
        let ghost txt = e.text.text();
        proof {
            crate::encoding::lemma_valid_between(
                e.text.buffer(),
                e.text.start() as int,
                e.text.end() as int,
            );
            assert(bytes.len() > 0);
            assert(txt.len() > 0);
            decode_utf8_encode_utf8(bytes);
        }
        let c = chars[chars.len() - 1];
        let w = char_utf8_len(c);
        let ghost init = txt.drop_last();
        proof {
            assert(txt =~= init + seq![c]);
            lemma_encode_concat(init, seq![c]);
            encode_utf8_valid_utf8(init);
            encode_utf8_valid_utf8(seq![c]);
            lemma_boundary_at_seam(encode_utf8(init), encode_utf8(seq![c]));
            is_char_boundary_start_end_of_seq(bytes);
            assert(bytes =~= encode_utf8(init) + encode_utf8(seq![c]));
        }
        let shorter = t.subslice(Span::up_to(len - w)).unwrap();
        proof {
            assert(shorter.bytes() =~= encode_utf8(init));
            encode_utf8_decode_utf8(init);
        }
        let buf = self.piece_table.get(i).read().buf;
        let id = self.piece_table.get(i).read().id;
        let _old = self.piece_table.replace(i, TableElem { buf, id, text: shorter });
        proof {
            let ps = old(self).pieces();
            let ps2 = self.pieces();
            assert forall|j: int| 0 <= j < ps2.len() implies piece_in_buffers(
                #[trigger] ps2[j],
                self.buffers,
            ) by {
                if j != i {
                    assert(ps2[j] == ps[j]);
                    assert(piece_in_buffers(ps[j], self.buffers));
                }
            }
        }
        c
    }
}


/// `e` with its editing flag cleared.
pub open spec fn freed(e: TableElem) -> TableElem {
    TableElem { buf: unoccupied(e.buf), id: e.id, text: e.text }
}

/// The buffers are the same, but that client `c`'s buffer got `extra` appended.
pub open spec fn grown_by(b2: Buffers, b1: Buffers, c: int, extra: Seq<u8>) -> bool {
    &&& b2.original == b1.original
    &&& b2.clients@.len() == b1.clients@.len()
    &&& forall|j: int| 0 <= j < b1.clients@.len() && j != c ==> #[trigger] b2.clients@[j]
        == b1.clients@[j]
    &&& b2.clients@[c].0 == b1.clients@[c].0
    &&& b2.clients@[c].1@ == b1.clients@[c].1@ + extra
    &&& b2.clients@[c].1.well_formed()
}

/// Pieces that lie in a set of buffers lie in it still once a buffer grew.
proof fn lemma_in_grown_buffers(e: TableElem, b1: Buffers, b2: Buffers, c: int, extra: Seq<u8>)
    requires
        piece_in_buffers(e, b1),
        0 <= c < b1.clients@.len(),
        grown_by(b2, b1, c, extra),
    ensures
        piece_in_buffers(e, b2),
{
    match e.buf {
        None => {},
        Some((b, _)) => {
            if b == c {
                let old_b = b1.clients@[c].1@;
                assert((old_b + extra).subrange(0, e.text.buffer().len() as int) =~= old_b.subrange(
                    0,
                    e.text.buffer().len() as int,
                ));
            } else {
                assert(b2.clients@[b as int] == b1.clients@[b as int]);
            }
        },
    }
}

impl Piece {
    /// Appends `s` to the buffer of client `cid` and extends the piece at position `i`, which
    /// reads up to the end of that buffer, over it.
    pub fn append_to_piece(&mut self, i: usize, cid: usize, s: &str)
        requires
            !(old(self).piece_table.lock_state() is Shared),
            old(self).wf(),
            i < old(self).pieces().len(),
            cid < old(self).buffers.clients@.len(),
            old(self).pieces()[i as int].buf matches Some((b, _)) && b == cid,
            old(self).pieces()[i as int].text.end() == old(self).buffers.clients@[cid as int].1@.len(),
            old(self).buffers.clients@[cid as int].1.can_reserve(s.spec_bytes().len()),
        ensures
            final(self).wf(),
            grown_by(final(self).buffers, old(self).buffers, cid as int, s.spec_bytes()),
            final(self).piece_table.keys() == old(self).piece_table.keys(),
            final(self).piece_table.next_key() == old(self).piece_table.next_key(),
            final(self).piece_table.lock_state() == old(self).piece_table.lock_state(),
            ({
                let e = old(self).pieces()[i as int];
                let e2 = final(self).pieces()[i as int];
                &&& final(self).pieces() == old(self).pieces().update(i as int, e2)
                &&& e2.buf == e.buf
                &&& e2.id == e.id
                &&& e2.text.buffer() == final(self).buffers.clients@[cid as int].1@
                &&& e2.text.start() == e.text.start()
                &&& e2.text.end() == final(self).buffers.clients@[cid as int].1@.len()
                &&& e2.text.bytes() == e.text.bytes() + s.spec_bytes()
                &&& e2.text.text() == e.text.text() + s@
            }),
    {
        let ghost e = self.pieces()[i as int];
        let ghost b_old = self.buffers.clients@[cid as int].1@;
        proof {
            self.piece_table.lemma_lengths();
            assert(piece_in_buffers(e, self.buffers));
            assert(e.text.buffer().len() == b_old.len());
            assert(b_old.subrange(0, b_old.len() as int) =~= b_old);
        }
        let mut entry = (AutoIncrementing::new(), AppendOnlyStr::new());
        self.buffers.clients.set_and_swap(cid, &mut entry);
        entry.1.push_str(s);
        let start = self.piece_table.get(i).read().text.start();
        proof {
            let b_new = entry.1@;
            encode_utf8_valid_utf8(s@);
            assert(b_new.subrange(0, b_old.len() as int) =~= b_old);
            crate::encoding::lemma_boundary_extends(b_new, b_old.len() as int, start as int);
            is_char_boundary_start_end_of_seq(b_new);
        }
        let text = entry.1.str_slice(Span::starting_at(start));
        self.buffers.clients.set_and_swap(cid, &mut entry);
        let buf = self.piece_table.get(i).read().buf;
        let id = self.piece_table.get(i).read().id;
        let _old = self.piece_table.replace(i, TableElem { buf, id, text });
        proof {
            let b_new = self.buffers.clients@[cid as int].1@;
            let sb = s.spec_bytes();
            assert(b_new =~= b_old + sb);
            assert(text.bytes() =~= e.text.bytes() + sb);
            crate::encoding::lemma_valid_between(
                e.text.buffer(),
                e.text.start() as int,
                e.text.end() as int,
            );
            lemma_decode_concat(e.text.bytes(), sb);
            encode_utf8_decode_utf8(s@);
            assert(grown_by(self.buffers, old(self).buffers, cid as int, sb));
            let ps = old(self).pieces();
            let ps2 = self.pieces();
            assert forall|j: int| 0 <= j < ps2.len() implies piece_in_buffers(
                #[trigger] ps2[j],
                self.buffers,
            ) by {
                if j != i {
                    assert(ps2[j] == ps[j]);
                    assert(piece_in_buffers(ps[j], old(self).buffers));
                    lemma_in_grown_buffers(ps[j], old(self).buffers, self.buffers, cid as int, sb);
                } else {
                    assert(b_new.subrange(0, b_new.len() as int) =~= b_new);
                }
            }
        }
    }

    /// Appends a NUL character to the buffer of client `cid` and moves the piece at position
    /// `i`, which holds no text, to the new end of that buffer.
    pub fn restart_piece(&mut self, i: usize, cid: usize)
        requires
            !(old(self).piece_table.lock_state() is Shared),
            old(self).wf(),
            i < old(self).pieces().len(),
            cid < old(self).buffers.clients@.len(),
            old(self).pieces()[i as int].buf matches Some((b, _)) && b == cid,
            is_empty_piece(old(self).pieces()[i as int]),
            old(self).buffers.clients@[cid as int].1.can_reserve(encode_utf8(seq!['\0']).len()),
        ensures
            final(self).wf(),
            grown_by(final(self).buffers, old(self).buffers, cid as int, encode_utf8(seq!['\0'])),
            final(self).piece_table.keys() == old(self).piece_table.keys(),
            final(self).piece_table.next_key() == old(self).piece_table.next_key(),
            final(self).piece_table.lock_state() == old(self).piece_table.lock_state(),
            ({
                let e = old(self).pieces()[i as int];
                let e2 = final(self).pieces()[i as int];
                &&& final(self).pieces() == old(self).pieces().update(i as int, e2)
                &&& e2.buf == e.buf
                &&& e2.id == e.id
                &&& empty_at_end(e2, final(self).buffers.clients@[cid as int].1@)
            }),
    {
        let ghost b_old = self.buffers.clients@[cid as int].1@;
        proof {
            self.piece_table.lemma_lengths();
        }
        let mut entry = (AutoIncrementing::new(), AppendOnlyStr::new());
        self.buffers.clients.set_and_swap(cid, &mut entry);
        entry.1.push('\0');
        let text = entry.1.str_slice_end();
        self.buffers.clients.set_and_swap(cid, &mut entry);
        let buf = self.piece_table.get(i).read().buf;
        let id = self.piece_table.get(i).read().id;
        let _old = self.piece_table.replace(i, TableElem { buf, id, text });
        proof {
            let extra = encode_utf8(seq!['\0']);
            let b_new = self.buffers.clients@[cid as int].1@;
            assert(b_new =~= b_old + extra);
            assert(grown_by(self.buffers, old(self).buffers, cid as int, extra));
            let ps = old(self).pieces();
            let ps2 = self.pieces();
            assert forall|j: int| 0 <= j < ps2.len() implies piece_in_buffers(
                #[trigger] ps2[j],
                self.buffers,
            ) by {
                if j != i {
                    assert(ps2[j] == ps[j]);
                    assert(piece_in_buffers(ps[j], old(self).buffers));
                    lemma_in_grown_buffers(ps[j], old(self).buffers, self.buffers, cid as int, extra);
                } else {
                    assert(b_new.subrange(0, b_new.len() as int) =~= b_new);
                }
            }
        }
    }

    /// Clears the editing flag of the piece at position `i` and inserts after it a fresh, empty
    /// piece at the end of the buffer of client `cid`, marked as edited by that client. Returns
    /// the key of the new piece.
    pub fn add_client_piece(&mut self, i: usize, cid: usize) -> (r: usize)
        requires
            old(self).piece_table.lock_state() is Exclusive,
            old(self).wf(),
            i < old(self).pieces().len(),
            cid < old(self).buffers.clients@.len(),
            old(self).buffers.counter(cid as int) < usize::MAX,
            old(self).buffers.counter(cid as int) * old(self).buffers.clients@.len() + cid
                <= usize::MAX,
            old(self).piece_table.next_key() < usize::MAX,
            old(self).pieces().len() < usize::MAX,
        ensures
            final(self).wf(),
            final(self).buffers.same_except_counter(&old(self).buffers, cid as int),
            final(self).buffers.counter(cid as int) == old(self).buffers.counter(cid as int) + 1,
            r == old(self).piece_table.next_key(),
            final(self).piece_table.keys() == old(self).piece_table.keys().insert(i + 1, r),
            final(self).piece_table.next_key() == old(self).piece_table.next_key() + 1,
            final(self).piece_table.lock_state() == old(self).piece_table.lock_state(),
            final(self).pieces() == old(self).pieces().update(
                i as int,
                freed(old(self).pieces()[i as int]),
            ).insert(i + 1, final(self).pieces()[i + 1]),
            client_piece(
                final(self).pieces()[i + 1],
                old(self).buffers,
                cid as int,
                old(self).buffers.counter(cid as int) * old(self).buffers.clients@.len() + cid,
            ),
    {
        proof {
            self.piece_table.lemma_lengths();
        }
        let old_e = self.piece_table.replace(
            i,
            TableElem { buf: None, id: 0, text: StrSlice::empty() },
        );
        let nb = match old_e.buf {
            Some((b, _)) => Some((b, false)),
            None => None,
        };
        let _blank = self.piece_table.replace(i, TableElem { buf: nb, id: old_e.id, text: old_e.text });
        let text = self.buffers.clients[cid].1.str_slice_end();
        let id = self.buffers.draw_id(cid);
        let key = self.piece_table.insert(
            i + 1,
            TableElem { buf: Some((cid, true)), text, id },
        );
        proof {
            let ps = old(self).pieces();
            let ps1 = ps.update(i as int, freed(ps[i as int]));
            let ps2 = self.pieces();
            assert(ps2 =~= ps1.insert(i + 1, ps2[i + 1]));
            assert forall|j: int| 0 <= j < ps2.len() implies piece_in_buffers(
                #[trigger] ps2[j],
                self.buffers,
            ) by {
                if j < i || j > i + 1 {
                    let k = if j < i { j } else { j - 1 };
                    assert(ps2[j] == ps[k]);
                    assert(piece_in_buffers(ps[k], old(self).buffers));
                    lemma_in_same_buffers(ps[k], old(self).buffers, self.buffers);
                } else if j == i {
                    assert(piece_in_buffers(ps[j], old(self).buffers));
                    lemma_in_same_buffers(ps[j], old(self).buffers, self.buffers);
                } else {
                    assert(text.buffer().subrange(0, text.buffer().len() as int) =~= text.buffer());
                }
            }
        }
        key
    }
}


/// The document around piece `p`: what comes before it, its own text, and what follows.
pub proof fn lemma_concat_around(ps: Seq<TableElem>, p: int)
    requires
        0 <= p < ps.len(),
    ensures
        concat_bytes(ps) == concat_bytes(ps.take(p)) + ps[p].text.bytes() + concat_bytes(
            ps.skip(p + 1),
        ),
        concat_text(ps) == concat_text(ps.take(p)) + ps[p].text.text() + concat_text(
            ps.skip(p + 1),
        ),
        concat_text(ps.take(p + 1)) == concat_text(ps.take(p)) + ps[p].text.text(),
        concat_bytes(ps.take(p + 1)) == concat_bytes(ps.take(p)) + ps[p].text.bytes(),
{
    lemma_concat_split(ps, p);
    assert(ps.skip(p) =~= seq![ps[p]] + ps.skip(p + 1));
    lemma_concat_append(seq![ps[p]], ps.skip(p + 1));
    lemma_concat_single(ps[p]);
    assert(ps.take(p + 1) =~= ps.take(p) + seq![ps[p]]);
    lemma_concat_append(ps.take(p), seq![ps[p]]);
    assert(concat_bytes(ps) =~= concat_bytes(ps.take(p)) + ps[p].text.bytes() + concat_bytes(
        ps.skip(p + 1),
    ));
    assert(concat_text(ps) =~= concat_text(ps.take(p)) + ps[p].text.text() + concat_text(
        ps.skip(p + 1),
    ));
}

/// Whether the document is shorter than the largest `usize` in bytes.
pub(crate) fn below_max_len(piece: &Piece) -> (r: bool)
    requires
        piece.wf(),
    ensures
        r == (piece.bytes().len() < usize::MAX),
{
    let elems = piece.piece_table.elements();
    let mut total: usize = 0;
    let mut i: usize = 0;
    while i < elems.len()
        invariant
            elems@ == piece.piece_table.elems(),
            i <= elems@.len(),
            total == concat_bytes(piece.pieces().take(i as int)).len(),
        decreases elems@.len() - i,
    {
        let n = elems[i].read().text.len();
        proof {
            let ps = piece.pieces();
            assert(ps[i as int] == elems@[i as int].value());
            lemma_concat_append(ps.take(i as int), seq![ps[i as int]]);
            lemma_concat_single(ps[i as int]);
            assert(ps.take(i as int) + seq![ps[i as int]] =~= ps.take(i + 1));
        }
        if n > usize::MAX - total {
            proof {
                let ps = piece.pieces();
                lemma_concat_split(ps, i + 1);
            }
            return false;
        }
        total = total + n;
        i = i + 1;
    }
    proof {
        assert(piece.pieces().take(i as int) =~= piece.pieces());
    }
    total < usize::MAX
}

impl Piece {
    /// Whether `insert_at` may be called for client `clientid`: the table holds a piece and can
    /// be locked, and the document, the keys and the client's piece ids have room for two more
    /// pieces.
    pub fn has_insert_room(&self, clientid: usize) -> (r: bool)
        requires
            self.wf(),
            clientid < self.buffers.clients@.len(),
        ensures
            r == ({
                &&& self.pieces().len() >= 1
                &&& self.piece_table.lock_state().can_lock_full_mut()
                &&& self.bytes().len() < usize::MAX
                &&& self.piece_table.next_key() + 2 <= usize::MAX
                &&& (self.buffers.counter(clientid as int) + 2) * self.buffers.clients@.len()
                    + clientid <= usize::MAX
            }),
    {
        proof {
            self.piece_table.lemma_lengths();
        }
        if self.piece_table.len() == 0 {
            return false;
        }
        let lockable = match self.piece_table.state() {
            TableState::Shared(_) => false,
            TableState::Exclusive(_) => false,
            _ => true,
        };
        if !lockable || !below_max_len(self) {
            return false;
        }
        if self.piece_table.upcoming_key() > usize::MAX - 2 {
            return false;
        }
        let counter = self.buffers.clients[clientid].0.peek();
        if counter > usize::MAX - 2 {
            proof {
                let len = self.buffers.clients@.len();
                assert((counter + 2) * len >= counter + 2) by (nonlinear_arith)
                    requires
                        len >= 1,
                ;
            }
            return false;
        }
        match (counter + 2).checked_mul(self.buffers.clients.len()) {
            Some(x) => x <= usize::MAX - clientid,
            None => false,
        }
    }
}

} // verus!
