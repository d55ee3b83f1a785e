//! Several clients editing one document. Each client types into a piece of its own, which
//! grows at the end of the client's buffer, and deletes backwards from its cursor.
use vstd::prelude::*;
use vstd::string::StringSliceAdditionalSpecFns;
use vstd::utf8::{decode_utf8_encode_utf8, encode_utf8};

use crate::piece::{
    bytes_before, client_piece, concat_bytes, concat_text, cursor_offset, empty_at_end, freed,
    grown_by, insert_point, is_empty_piece, last_nonempty_before, lemma_concat_append,
    lemma_concat_around, lemma_concat_single, lemma_concat_split, lemma_last_nonempty_before,
    lemma_rotate_concat, rotate, slices_wf, split_spec, Buffers, Piece, TableElem,
};
use crate::btep::{
    be64, from_be64, push_all, push_u64, read_u64, read_usize, Deserialize, Serialize,
};
use crate::transfer::{
    piece_client_lens, piece_encoding, piece_end, piece_mark, piece_marks, piece_readable,
    table_lens, table_marks,
};
use crate::utils::CursorPos;

verus! {

broadcast use vstd::seq::group_seq_axioms;

/// What a client in insert mode keeps: the piece it types into, its cursor, and whether it
/// deleted something since it last typed.
#[derive(Debug)]
pub struct Insertdata {
    /// The key of the piece being edited.
    slice: usize,
    /// The cursor's location.
    pub pos: CursorPos,
    /// Whether a character was deleted since the last insertion. Text typed after a deletion
    /// cannot go at the end of the edited piece, so it starts a piece of its own.
    has_deleted: bool,
}

impl Insertdata {
    /// The key of the piece being edited.
    pub closed spec fn key(&self) -> usize {
        self.slice
    }

    /// The cursor's location.
    pub closed spec fn cursor_pos(&self) -> CursorPos {
        self.pos
    }

    /// Whether a character was deleted since the last insertion.
    pub closed spec fn deleted(&self) -> bool {
        self.has_deleted
    }
}

/// A client which inserts text into a piece table through a buffer of its own.
#[derive(Debug)]
pub struct Client {
    /// The number of the client, which is that of its buffer.
    bufnr: usize,
    /// `None` while the client is not in insert mode.
    pub data: Option<Insertdata>,
}

/// The pairwise distinct keys of a table.
pub open spec fn distinct(ks: Seq<usize>) -> bool {
    forall|a: int, b: int| 0 <= a < b < ks.len() ==> ks[a] != ks[b]
}

/// The position of the element with key `k`.
pub open spec fn key_position(ks: Seq<usize>, k: usize) -> int {
    choose|i: int| 0 <= i < ks.len() && ks[i] == k
}

/// With distinct keys, the element with key `k` is the one found at `i`.
proof fn lemma_key_position(ks: Seq<usize>, k: usize, i: int)
    requires
        distinct(ks),
        0 <= i < ks.len(),
        ks[i] == k,
    ensures
        key_position(ks, k) == i,
{
    let j = key_position(ks, k);
    assert(0 <= j < ks.len() && ks[j] == k);
    if j < i {
        assert(ks[j] != ks[i]);
    } else if j > i {
        assert(ks[i] != ks[j]);
    }
}

/// The marking of a piece that a client other than `c` is editing.
pub open spec fn edited_by_other(buf: Option<(usize, bool)>, c: int) -> bool {
    match buf {
        Some((b, editing)) => editing && b != c,
        None => false,
    }
}

/// Going from `p1` to `p2`, client `c` left alone what the other clients own: their buffers,
/// and each piece one of them is editing, which keeps its key, its marking and its end.
pub open spec fn keeps_others(p1: Piece, p2: Piece, c: int) -> bool {
    &&& p2.buffers.clients@.len() == p1.buffers.clients@.len()
    &&& forall|j: int|
        0 <= j < p1.buffers.clients@.len() && j != c ==> (#[trigger] p2.buffers.clients@[j]).1@
            == p1.buffers.clients@[j].1@
    &&& forall|i: int|
        0 <= i < p1.pieces().len() && edited_by_other((#[trigger] p1.pieces()[i]).buf, c)
            ==> exists|j: int|
            0 <= j < p2.pieces().len() && #[trigger] p2.piece_table.keys()[j]
                == p1.piece_table.keys()[i] && p2.pieces()[j].buf == p1.pieces()[i].buf
                && p2.pieces()[j].text.end() == p1.pieces()[i].text.end()
}

/// Room for client `cl` to append `n` bytes: its buffer can grow by them, and, when it deleted
/// since it last typed, a new piece can be made (a piece id, a key and a place in the table are
/// left, the full table can be locked) and its cursor moved one column on.
pub open spec fn push_room(cl: Client, piece: Piece, n: nat) -> bool {
    let c = cl.number() as int;
    &&& piece.buffers.clients@[c].1.can_reserve(n)
    &&& cl.mode()->0.deleted() ==> {
        &&& piece.buffers.counter(c) < usize::MAX
        &&& piece.buffers.counter(c) * piece.buffers.clients@.len() + c <= usize::MAX
        &&& piece.piece_table.next_key() < usize::MAX
        &&& piece.pieces().len() < usize::MAX
        &&& piece.piece_table.lock_state().can_lock_full_mut()
        &&& cl.mode()->0.cursor_pos().row <= isize::MAX
        &&& cl.mode()->0.cursor_pos().col < isize::MAX
    }
}

/// What appending the characters `s`, encoded as `sb`, does beyond the document: the client is
/// typing at the end of its piece again; without a deletion before, its piece grew; after one,
/// the piece it was editing is no longer marked and a new piece holds the text, the cursor
/// having moved one column on.
pub open spec fn pushed(c1: Client, p1: Piece, c2: Client, p2: Piece, s: Seq<char>, sb: Seq<u8>) -> bool {
    let d = c1.mode()->0;
    let d2 = c2.mode()->0;
    let c = c1.number() as int;
    let p = c1.piece_index(p1);
    let ps = p1.pieces();
    let ks = p1.piece_table.keys();
    let ps2 = p2.pieces();
    let bufs = p1.buffers;
    &&& !d2.deleted()
    &&& p2.buffers.clients@[c].1@ == bufs.clients@[c].1@ + sb
    &&& !d.deleted() ==> {
        &&& d2 == d
        &&& ps2 == ps.update(p, ps2[p])
        &&& ps2[p].buf == ps[p].buf
        &&& ps2[p].id == ps[p].id
        &&& ps2[p].text.text() == ps[p].text.text() + s
        &&& p2.piece_table.keys() == ks
        &&& p2.buffers.counter(c) == bufs.counter(c)
        &&& p2.piece_table.lock_state() == p1.piece_table.lock_state()
    }
    &&& d.deleted() ==> {
        &&& d2.cursor_pos() == CursorPos {
            row: d.cursor_pos().row,
            col: (d.cursor_pos().col + 1) as usize,
        }
        &&& d2.key() == p1.piece_table.next_key()
        &&& p2.piece_table.keys() == ks.insert(p + 1, d2.key())
        &&& ps2 == ps.update(p, freed(ps[p])).insert(p + 1, ps2[p + 1])
        &&& ps2[p + 1].buf == Some((c as usize, true))
        &&& ps2[p + 1].id == bufs.counter(c) * bufs.clients@.len() + c
        &&& ps2[p + 1].text.text() == s
        &&& p2.buffers.counter(c) == bufs.counter(c) + 1
        &&& p2.piece_table.lock_state()
            == p1.piece_table.lock_state().after_lock_full_mut().after_drop_full_mut()
    }
}


/// Room for client `cl` to enter insert mode: the table holds a piece and can be locked, the
/// document, the keys and the client's piece ids have room for two more pieces, and the
/// client's buffer can take a NUL character.
pub open spec fn insert_room(cl: Client, piece: Piece) -> bool {
    let c = cl.number() as int;
    &&& piece.pieces().len() >= 1
    &&& piece.piece_table.lock_state().can_lock_full_mut()
    &&& piece.bytes().len() < usize::MAX
    &&& piece.piece_table.next_key() + 2 <= usize::MAX
    &&& (piece.buffers.counter(c) + 2) * piece.buffers.clients@.len() + c <= usize::MAX
    &&& piece.buffers.clients@[c].1.can_reserve(encode_utf8(seq!['\0']).len())
}

/// Splitting the table at a cursor keeps each piece that another client is editing, under its
/// key, with its marking and its end, away from the new client piece.
proof fn lemma_split_keeps(
    ps: Seq<TableElem>,
    ks: Seq<usize>,
    nk: usize,
    bufs: Buffers,
    ps2: Seq<TableElem>,
    ks2: Seq<usize>,
    bufs2: Buffers,
    b: int,
    o: int,
    idx: int,
    cid: int,
    i: int,
) -> (j: int)
    requires
        split_spec(ps, ks, nk, bufs, ps2, ks2, bufs2, b, o, idx, cid),
        ks.len() == ps.len(),
        0 <= i < ps.len(),
        edited_by_other(ps[i].buf, cid),
    ensures
        0 <= j < ps2.len(),
        j != idx,
        ks2[j] == ks[i],
        ps2[j].buf == ps[i].buf,
        ps2[j].text.end() == ps[i].text.end(),
{
    let k = if o == 0 { idx } else { idx - 1 };
    let w: int = if o == 0 { 2 } else { 3 };
    if i < k {
        assert(ps2.take(k)[i] == ps[i]);
        assert(ks2[i] == ks[i]);
        i
    } else if i > k {
        assert(ps2.skip(k + w)[i - k - 1] == ps.skip(k + 1)[i - k - 1]);
        assert(ks2[i + w - 1] == ks[i]);
        i + w - 1
    } else {
        assert(ks2[k + w - 1] == ks[k]);
        k + w - 1
    }
}


/// A well-formed piece that is not empty holds a character.
proof fn lemma_nonempty_piece_text(e: TableElem)
    requires
        e.text.well_formed(),
        !is_empty_piece(e),
    ensures
        e.text.text().len() >= 1,
{
    let b = e.text.bytes();
    crate::encoding::lemma_valid_between(e.text.buffer(), e.text.start() as int, e.text.end() as int);
    decode_utf8_encode_utf8(b);
    if e.text.text().len() == 0 {
        assert(e.text.text() =~= Seq::<char>::empty());
        assert(encode_utf8(Seq::<char>::empty()) =~= Seq::<u8>::empty());
        assert(b.len() == 0);
    }
}

/// A backspace by client `c1` while its piece holds text takes a character from that piece,
/// so the cursor of another client `o` in insert mode goes one back when it was at or past the
/// cursor of `c1`, and stays otherwise.
proof fn lemma_backspace_other_cursor(c1: Client, p1: Piece, p2: Piece, o: Client)
    requires
        p1.wf(),
        c1.wf_in(p1),
        c1.mode() is Some,
        o.wf_in(p1),
        o.mode() is Some,
        o.number() != c1.number(),
        !is_empty_piece(p1.pieces()[c1.piece_index(p1)]),
        p2.pieces() == p1.pieces().update(c1.piece_index(p1), p2.pieces()[c1.piece_index(p1)]),
        shrunk(p1.pieces()[c1.piece_index(p1)], p2.pieces()[c1.piece_index(p1)]),
        p2.piece_table.keys() == p1.piece_table.keys(),
    ensures
        o.cursor(p2) == o.cursor(p1) - (if o.cursor(p1) >= c1.cursor(p1) { 1int } else { 0 }),
{
    let ps = p1.pieces();
    let ks = p1.piece_table.keys();
    let ps2 = p2.pieces();
    p1.piece_table.lemma_lengths();
    p1.lemma_slices();
    let p = c1.piece_index(p1);
    let kj = o.mode()->0.key();
    let pj = o.piece_index(p1);
    assert(ks.contains(kj));
    assert(0 <= pj < ks.len() && ks[pj] == kj);
    assert(ks.contains(c1.mode()->0.key()));
    assert(0 <= p < ks.len());
    assert(pj != p) by {
        if pj == p {
            assert(ps[pj].buf == Some((o.number(), true)));
            assert(ps[p].buf == Some((c1.number(), true)));
        }
    }
    assert(ps[p].text.well_formed());
    lemma_nonempty_piece_text(ps[p]);
    assert(ps.take(p + 1) =~= ps.take(p) + seq![ps[p]] + Seq::<TableElem>::empty());
    lemma_concat_around_len(ps.take(p), ps[p], Seq::<TableElem>::empty());
    if pj < p {
        assert(ps2.take(pj + 1) =~= ps.take(pj + 1));
        lemma_concat_take_mono(ps, pj + 1, p);
    } else {
        let mid = ps.subrange(p + 1, pj + 1);
        assert(ps.take(pj + 1) =~= ps.take(p) + seq![ps[p]] + mid);
        assert(ps2.take(pj + 1) =~= ps.take(p) + seq![ps2[p]] + mid);
        lemma_concat_around_len(ps.take(p), ps[p], mid);
        lemma_concat_around_len(ps.take(p), ps2[p], mid);
        lemma_concat_take_mono(ps, p + 1, pj + 1);
    }
}

/// Moving the piece at `p` back to `a` over empty pieces keeps the characters up to its end.
proof fn lemma_moved_prefix(ps: Seq<TableElem>, a: int, p: int)
    requires
        slices_wf(ps),
        0 <= a <= p < ps.len(),
        forall|i: int| a <= i < p ==> is_empty_piece(#[trigger] ps[i]),
    ensures
        slices_wf(rotate(ps, a, p)),
        rotate(ps, a, p).len() == ps.len(),
        concat_text(rotate(ps, a, p).take(a + 1)).len() == concat_text(ps.take(p + 1)).len(),
{
    let rr = rotate(ps, a, p);
    assert forall|i: int| 0 <= i < rr.len() implies (#[trigger] rr[i]).text.well_formed() by {
        if i < a {
            assert(rr[i] == ps[i]);
        } else if i == a {
            assert(rr[i] == ps[p]);
        } else if i <= p {
            assert(rr[i] == ps[i - 1]);
        } else {
            assert(rr[i] == ps[i]);
        }
    }
    let mid = ps.subrange(a, p);
    assert forall|i: int| 0 <= i < mid.len() implies is_empty_piece(#[trigger] mid[i])
        && mid[i].text.well_formed() by {
        assert(mid[i] == ps[a + i]);
    }
    crate::piece::lemma_concat_empty(mid);
    assert(ps.take(p) =~= ps.take(a) + mid);
    lemma_concat_append(ps.take(a), mid);
    assert(ps.take(p + 1) =~= ps.take(p) + seq![ps[p]] + Seq::<TableElem>::empty());
    lemma_concat_around_len(ps.take(p), ps[p], Seq::<TableElem>::empty());
    assert(rr.take(a + 1) =~= ps.take(a) + seq![ps[p]] + Seq::<TableElem>::empty());
    lemma_concat_around_len(ps.take(a), ps[p], Seq::<TableElem>::empty());
}

/// Moving the piece at `c1` back over the empty pieces before it, when `c1` is `a` or the
/// place just before, keeps the characters up to the end of the piece first at `a`.
proof fn lemma_second_move(rr: Seq<TableElem>, c1: int, a: int)
    requires
        slices_wf(rr),
        0 <= c1 <= a < rr.len(),
        c1 == a || c1 == a - 1,
    ensures
        ({
            let q = last_nonempty_before(rr, c1);
            concat_text(rotate(rr, q + 1, c1).take(rotated_index(q + 1, c1, a) + 1)).len()
                == concat_text(rr.take(a + 1)).len()
        }),
{
    lemma_last_nonempty_before(rr, c1);
    let q = last_nonempty_before(rr, c1);
    let rot2 = rotate(rr, q + 1, c1);
    let own = rotated_index(q + 1, c1, a);
    let mid2 = rr.subrange(q + 1, c1);
    assert forall|i: int| 0 <= i < mid2.len() implies is_empty_piece(#[trigger] mid2[i])
        && mid2[i].text.well_formed() by {
        assert(mid2[i] == rr[q + 1 + i]);
    }
    crate::piece::lemma_concat_empty(mid2);
    if c1 == a {
        assert(rot2.take(own + 1) =~= rr.take(q + 1) + seq![rr[c1]] + Seq::<TableElem>::empty());
        lemma_concat_around_len(rr.take(q + 1), rr[c1], Seq::<TableElem>::empty());
        assert(rr.take(a + 1) =~= rr.take(q + 1) + mid2 + seq![rr[a]]);
        lemma_concat_around_len(rr.take(q + 1) + mid2, rr[a], Seq::<TableElem>::empty());
        assert(rr.take(q + 1) + mid2 + seq![rr[a]] =~= rr.take(q + 1) + mid2 + seq![rr[a]]
            + Seq::<TableElem>::empty());
        lemma_concat_append(rr.take(q + 1), mid2);
    } else {
        let pre = rr.take(a + 1);
        assert(rot2.take(a + 1) =~= rotate(pre, q + 1, c1));
        assert forall|i: int| q + 1 <= i < c1 implies is_empty_piece(#[trigger] pre[i]) by {
            assert(pre[i] == rr[i]);
        }
        assert forall|i: int| 0 <= i < pre.len() implies (#[trigger] pre[i]).text.well_formed() by {
            assert(pre[i] == rr[i]);
        }
        crate::piece::lemma_rotate_concat(pre, q + 1, c1);
    }
}

/// Moving up to `max` empty pieces from before the piece at `p` behind it, then deleting
/// backwards from where those moves stopped, leaves as many characters up to the end of the
/// moved piece as there were up to the end of the piece at `p`, less the character deleted.
proof fn lemma_swap_delete_cursor(
    ps: Seq<TableElem>,
    ks: Seq<usize>,
    ps2: Seq<TableElem>,
    ks2: Seq<usize>,
    p: int,
    max: int,
    c: int,
    r: Option<char>,
)
    requires
        slices_wf(ps),
        0 <= p < ps.len(),
        ks.len() == ps.len(),
        max > 0,
        deleted_from(
            rotate(ps, swap_start(ps, p, max), p),
            rotate(ks, swap_start(ps, p, max), p),
            ps2,
            ks2,
            swap_cursor(ps, p, max),
            c,
            r,
        ),
    ensures
        ({
            let a = swap_start(ps, p, max);
            let c1 = swap_cursor(ps, p, max);
            let q = last_nonempty_before(rotate(ps, a, p), c1);
            concat_text(ps2.take(rotated_index(q + 1, c1, a) + 1)).len() == concat_text(
                ps.take(p + 1),
            ).len() - (if r is Some {
                1int
            } else {
                0
            })
        }),
{
    let a = swap_start(ps, p, max);
    let c1 = swap_cursor(ps, p, max);
    lemma_last_nonempty_before(ps, p);
    assert(c1 == a || (c1 == a - 1 && c1 >= 0));
    lemma_moved_prefix(ps, a, p);
    let rr = rotate(ps, a, p);
    lemma_second_move(rr, c1, a);
    lemma_last_nonempty_before(rr, c1);
    let q = last_nonempty_before(rr, c1);
    let rot2 = rotate(rr, q + 1, c1);
    let own = rotated_index(q + 1, c1, a);
    if q >= 0 && may_edit(rr[q].buf, c) {
        let e = rr[q];
        assert(rot2[q] == e);
        lemma_nonempty_piece_text(e);
        let tail = rot2.subrange(q + 1, own + 1);
        assert(rot2.take(own + 1) =~= rot2.take(q) + seq![e] + tail);
        assert(ps2.take(own + 1) =~= rot2.take(q) + seq![ps2[q]] + tail);
        lemma_concat_around_len(rot2.take(q), e, tail);
        lemma_concat_around_len(rot2.take(q), ps2[q], tail);
    }
}

/// Two runs of pieces with as many characters in all, and the same pieces after positions `i`
/// and `j`, have as many characters up to and including those positions.
proof fn lemma_prefix_by_suffix(ps: Seq<TableElem>, i: int, ps2: Seq<TableElem>, j: int)
    requires
        0 <= i < ps.len(),
        0 <= j < ps2.len(),
        concat_text(ps).len() == concat_text(ps2).len(),
        ps.skip(i + 1) == ps2.skip(j + 1),
    ensures
        concat_text(ps.take(i + 1)).len() == concat_text(ps2.take(j + 1)).len(),
{
    lemma_concat_split(ps, i + 1);
    lemma_concat_split(ps2, j + 1);
}

/// Entering insert mode as client `cid`, which splits the table `p0` into `p1` and then
/// restarts the client's new piece at `idx`, giving `p2`, leaves the cursor of every other
/// client in insert mode where it was.
proof fn lemma_enter_other_cursor(
    p0: Piece,
    p1: Piece,
    p2: Piece,
    idx: int,
    o: Client,
    cid: int,
    offset: Option<usize>,
    b: int,
)
    requires
        p0.wf(),
        p1.wf(),
        p2.wf(),
        p1.text() == p0.text(),
        p2.text() == p0.text(),
        o.wf_in(p0),
        o.mode() is Some,
        o.number() != cid,
        0 <= cid,
        offset is None ==> {
            let n = p0.pieces().len() as int;
            let nk = p0.piece_table.next_key();
            &&& idx == n + 1
            &&& p1.pieces().len() == n + 2
            &&& p1.pieces().take(n as int) == p0.pieces()
            &&& client_piece(p1.pieces()[n + 1], p0.buffers, cid, p1.pieces()[n + 1].id as int)
            &&& p1.piece_table.keys() == p0.piece_table.keys().push(nk).push((nk + 1) as usize)
        },
        offset matches Some(x) ==> split_spec(
            p0.pieces(),
            p0.piece_table.keys(),
            p0.piece_table.next_key(),
            p0.buffers,
            p1.pieces(),
            p1.piece_table.keys(),
            p1.buffers,
            b,
            x as int,
            idx,
            cid,
        ),
        p2.piece_table.keys() == p1.piece_table.keys(),
        p2.pieces() == p1.pieces().update(idx, p2.pieces()[idx]),
    ensures
        o.cursor(p2) == o.cursor(p0),
{
    let ps = p0.pieces();
    let ks = p0.piece_table.keys();
    let ps1 = p1.pieces();
    let ks1 = p1.piece_table.keys();
    let ps2 = p2.pieces();
    p0.piece_table.lemma_lengths();
    p1.piece_table.lemma_lengths();
    p2.piece_table.lemma_lengths();
    let kj = o.mode()->0.key();
    let i = o.piece_index(p0);
    assert(ks.contains(kj));
    assert(0 <= i < ks.len() && ks[i] == kj);
    assert(ps[i].buf == Some((o.number(), true)));
    let n = ps.len() as int;
    let j: int = match offset {
        None => i,
        Some(x) => {
            let k = if x == 0 { idx } else { idx - 1 };
            let w: int = if x == 0 { 2 } else { 3 };
            if i < k { i } else { i + w - 1 }
        },
    };
    match offset {
        None => {
            assert(ks1[i] == ks[i]);
            assert(ps1.take(i + 1) =~= ps.take(i + 1));
            assert(ps1[idx].buf == Some((cid as usize, true)));
        },
        Some(x) => {
            let k = if x == 0 { idx } else { idx - 1 };
            let w: int = if x == 0 { 2 } else { 3 };
            assert(ps1.len() == n + w - 1);
            assert(ps1[idx].buf == Some((cid as usize, true)));
            if i < k {
                assert(ps1.take(k)[i] == ps[i]);
                assert(ks1[i] == ks[i]);
                assert(ps1.take(i + 1) =~= ps.take(k).take(i + 1));
                assert(ps.take(i + 1) =~= ps.take(k).take(i + 1));
            } else {
                assert(ks1[i + w - 1] == ks[i]);
                assert(ps1.skip(k + w) == ps.skip(k + 1));
                assert forall|q: int| 0 <= q < ps.len() - (i + 1) implies #[trigger] ps1.skip(j + 1)[q]
                    == ps.skip(i + 1)[q] by {
                    assert(ps1.skip(k + w)[i - k + q] == ps.skip(k + 1)[i - k + q]);
                }
                assert(ps1.skip(j + 1) =~= ps.skip(i + 1));
                lemma_prefix_by_suffix(ps, i, ps1, j);
            }
        },
    }
    assert(ks1[j] == kj);
    lemma_key_position(ks1, kj, j);
    assert(o.piece_index(p1) == j);
    assert(o.piece_index(p2) == j);
    assert(j != idx);
    if j < idx {
        assert(ps2.take(j + 1) =~= ps1.take(j + 1));
    } else {
        assert(ps2.skip(j + 1) =~= ps1.skip(j + 1));
        lemma_prefix_by_suffix(ps1, j, ps2, j);
    }
}

/// Whether client `c` may delete from a piece marked `buf`: the piece lies in the original
/// buffer, or nobody is editing it, or `c` itself is.
pub open spec fn may_edit(buf: Option<(usize, bool)>, c: int) -> bool {
    match buf {
        None => true,
        Some((b, editing)) => !editing || b == c,
    }
}

/// `e2` is the piece `e` without its last character.
pub open spec fn shrunk(e: TableElem, e2: TableElem) -> bool {
    &&& e2.buf == e.buf
    &&& e2.id == e.id
    &&& e2.text.buffer() == e.text.buffer()
    &&& e2.text.start() == e.text.start()
    &&& e2.text.end() == e.text.end() - encode_utf8(seq![e.text.text().last()]).len()
    &&& e2.text.text() == e.text.text().drop_last()
}

/// What deleting backwards from the piece at `cur` does to the pieces `ps` with keys `ks`,
/// for client `c`: the empty pieces right before it are moved behind it, then the piece before
/// it, when there is one and `c` may edit it, loses its last character, which `r` holds.
pub open spec fn deleted_from(
    ps: Seq<TableElem>,
    ks: Seq<usize>,
    ps2: Seq<TableElem>,
    ks2: Seq<usize>,
    cur: int,
    c: int,
    r: Option<char>,
) -> bool {
    let q = last_nonempty_before(ps, cur);
    let rot = rotate(ps, q + 1, cur);
    &&& ks2 == rotate(ks, q + 1, cur)
    &&& if q >= 0 && may_edit(ps[q].buf, c) {
        &&& r == Some(ps[q].text.text().last())
        &&& ps2 == rot.update(q, ps2[q])
        &&& shrunk(ps[q], ps2[q])
    } else {
        &&& r is None
        &&& ps2 == rot
    }
}

/// The number of empty pieces right before the piece at `cur`.
pub open spec fn empty_run(ps: Seq<TableElem>, cur: int) -> int {
    cur - last_nonempty_before(ps, cur) - 1
}

/// Where the piece from `o` ends up once up to `max` of the empty pieces right before it were
/// moved behind it, one at a time.
pub open spec fn swap_start(ps: Seq<TableElem>, o: int, max: int) -> int {
    if max <= empty_run(ps, o) {
        o - max
    } else {
        last_nonempty_before(ps, o) + 1
    }
}

/// Where deleting goes on from after those moves: the piece from `o`, unless fewer than `max`
/// empty pieces preceded it and a piece with text comes before them, which is then where
/// deleting goes on from.
pub open spec fn swap_cursor(ps: Seq<TableElem>, o: int, max: int) -> int {
    if max <= empty_run(ps, o) {
        o - max
    } else if last_nonempty_before(ps, o) >= 0 {
        last_nonempty_before(ps, o)
    } else {
        0
    }
}

/// The character index that a backspace with `swaps` moves by client `cl` deletes, if it
/// deletes one: the one before its cursor when no moves are asked for, otherwise the one before
/// the piece where deleting goes on from.
pub open spec fn deleted_point(cl: Client, piece: Piece, swaps: int) -> int {
    let ps = piece.pieces();
    let p = cl.piece_index(piece);
    if swaps == 0 {
        cl.cursor(piece) - 1
    } else {
        concat_text(
            rotate(ps, swap_start(ps, p, swaps), p).take(swap_cursor(ps, p, swaps)),
        ).len() - 1
    }
}

/// The number of empty pieces that a backspace by client `cl` moves: those right before the
/// piece it is editing when that piece is empty, else none.
pub open spec fn backspace_swaps(cl: Client, piece: Piece) -> int {
    let ps = piece.pieces();
    let p = cl.piece_index(piece);
    if is_empty_piece(ps[p]) {
        empty_run(ps, p)
    } else {
        0
    }
}

/// A backspace with `swaps` moves by client `cl` deletes a character. With no moves asked
/// for: its piece holds text, or a piece with text comes before it that the client may edit.
/// Otherwise: once the moves are made, a piece with text comes before where deleting goes on
/// from, and the client may edit it.
pub open spec fn deletes_with_swaps(cl: Client, piece: Piece, swaps: int) -> bool {
    let ps = piece.pieces();
    let p = cl.piece_index(piece);
    let c = cl.number() as int;
    if swaps == 0 {
        let q = last_nonempty_before(ps, p);
        !is_empty_piece(ps[p]) || (q >= 0 && may_edit(ps[q].buf, c))
    } else {
        let rot = rotate(ps, swap_start(ps, p, swaps), p);
        let q = last_nonempty_before(rot, swap_cursor(ps, p, swaps));
        q >= 0 && may_edit(rot[q].buf, c)
    }
}

/// The characters of the pieces `a`, then `e`, then `b`.
proof fn lemma_concat_around_len(a: Seq<TableElem>, e: TableElem, b: Seq<TableElem>)
    ensures
        concat_text(a + seq![e] + b).len() == concat_text(a).len() + e.text.text().len()
            + concat_text(b).len(),
{
    lemma_concat_append(a + seq![e], b);
    lemma_concat_append(a, seq![e]);
    lemma_concat_single(e);
}

/// The characters before the end of a piece are no more than those before the end of a later
/// piece.
proof fn lemma_concat_take_mono(ps: Seq<TableElem>, a: int, b: int)
    requires
        0 <= a <= b <= ps.len(),
    ensures
        concat_text(ps.take(a)).len() <= concat_text(ps.take(b)).len(),
{
    crate::piece::lemma_concat_split(ps.take(b), a);
    assert(ps.take(b).take(a) =~= ps.take(a));
}

/// Typing `s` by client `c1` moves the cursor of another client `o` in insert mode on by the
/// length of `s` when `o`'s piece comes after `c1`'s, and leaves it otherwise.
proof fn lemma_pushed_other_cursor(
    c1: Client,
    p1: Piece,
    c2: Client,
    p2: Piece,
    s: Seq<char>,
    sb: Seq<u8>,
    o: Client,
)
    requires
        p1.wf(),
        p2.wf(),
        c1.wf_in(p1),
        c1.mode() is Some,
        o.wf_in(p1),
        o.mode() is Some,
        o.number() != c1.number(),
        pushed(c1, p1, c2, p2, s, sb),
    ensures
        o.cursor(p2) == o.cursor(p1) + (if o.piece_index(p1) > c1.piece_index(p1) {
            s.len() as int
        } else {
            0
        }),
{
    let ps = p1.pieces();
    let ks = p1.piece_table.keys();
    let ps2 = p2.pieces();
    let ks2 = p2.piece_table.keys();
    p1.piece_table.lemma_lengths();
    p2.piece_table.lemma_lengths();
    let p = c1.piece_index(p1);
    let kj = o.mode()->0.key();
    let pj = o.piece_index(p1);
    assert(ks.contains(kj));
    assert(0 <= pj < ks.len() && ks[pj] == kj);
    assert(ks.contains(c1.mode()->0.key()));
    assert(0 <= p < ks.len());
    assert(pj != p) by {
        if pj == p {
            assert(ps[pj].buf == Some((o.number(), true)));
            assert(ps[p].buf == Some((c1.number(), true)));
        }
    }
    let d = c1.mode()->0;
    if !d.deleted() {
        assert(ks2 == ks);
        if pj < p {
            assert(ps2.take(pj + 1) =~= ps.take(pj + 1));
        } else {
            let mid = ps.subrange(p + 1, pj + 1);
            assert(ps.take(pj + 1) =~= ps.take(p) + seq![ps[p]] + mid);
            assert(ps2.take(pj + 1) =~= ps.take(p) + seq![ps2[p]] + mid);
            lemma_concat_around_len(ps.take(p), ps[p], mid);
            lemma_concat_around_len(ps.take(p), ps2[p], mid);
        }
    } else {
        assert(kj < p1.piece_table.next_key());
        if pj < p {
            assert(ks2[pj] == kj);
            lemma_key_position(ks2, kj, pj);
            assert(ps2.take(pj + 1) =~= ps.take(pj + 1));
        } else {
            assert(ks2[pj + 1] == kj);
            lemma_key_position(ks2, kj, pj + 1);
            let mid = ps.subrange(p + 1, pj + 1);
            let f = freed(ps[p]);
            assert(ps.take(pj + 1) =~= ps.take(p) + seq![ps[p]] + mid);
            assert(ps2.take(pj + 2) =~= (ps.take(p) + seq![f]) + seq![ps2[p + 1]] + mid);
            lemma_concat_around_len(ps.take(p), ps[p], mid);
            lemma_concat_around_len(ps.take(p) + seq![f], ps2[p + 1], mid);
            lemma_concat_append(ps.take(p), seq![f]);
            lemma_concat_single(f);
        }
    }
}

/// Where the element at `i` ends up in `rotate(s, a, p)`.
pub open spec fn rotated_index(a: int, p: int, i: int) -> int {
    if i < a || i > p {
        i
    } else if i == p {
        a
    } else {
        i + 1
    }
}

proof fn lemma_rotate_index<A>(s: Seq<A>, a: int, p: int, i: int)
    requires
        0 <= a <= p < s.len(),
        0 <= i < s.len(),
    ensures
        rotate(s, a, p).len() == s.len(),
        0 <= rotated_index(a, p, i) < s.len(),
        rotate(s, a, p)[rotated_index(a, p, i)] == s[i],
{
}

/// One more step of moving the element at `p` back.
proof fn lemma_rotate_step<A>(s: Seq<A>, a: int, p: int)
    requires
        0 < a <= p < s.len(),
    ensures
        rotate(s, a, p).remove(a - 1).insert(a, rotate(s, a, p)[a - 1]) == rotate(s, a - 1, p),
{
    assert(rotate(s, a, p).remove(a - 1).insert(a, rotate(s, a, p)[a - 1]) =~= rotate(
        s,
        a - 1,
        p,
    ));
}

/// Moving an element nowhere.
proof fn lemma_rotate_none<A>(s: Seq<A>, p: int)
    requires
        0 <= p < s.len(),
    ensures
        rotate(s, p, p) == s,
{
    assert(rotate(s, p, p) =~= s);
}

/// Over a run of empty pieces, the last piece with text stays the same.
proof fn lemma_last_nonempty_run(ps: Seq<TableElem>, a: int, p: int)
    requires
        0 <= a <= p <= ps.len(),
        forall|i: int| a <= i < p ==> is_empty_piece(#[trigger] ps[i]),
    ensures
        last_nonempty_before(ps, p) == last_nonempty_before(ps, a),
    decreases p - a,
{
    if p > a {
        assert(is_empty_piece(ps[p - 1]));
        lemma_last_nonempty_run(ps, a, p - 1);
    }
}

/// The document after deleting backwards from the piece at `cur`: the character before the
/// piece at `cur` is gone, or nothing changed; and the piece from `cur` now sits where the
/// text before it is one character shorter, or the same.
proof fn lemma_deleted_text(
    ps: Seq<TableElem>,
    ks: Seq<usize>,
    ps2: Seq<TableElem>,
    ks2: Seq<usize>,
    cur: int,
    c: int,
    r: Option<char>,
)
    requires
        crate::piece::slices_wf(ps),
        0 <= cur < ps.len(),
        deleted_from(ps, ks, ps2, ks2, cur, c, r),
    ensures
        ({
            let t = concat_text(ps);
            let m = concat_text(ps.take(cur)).len() as int;
            let q = last_nonempty_before(ps, cur);
            &&& ps2.len() == ps.len()
            &&& ps2[q + 1] == ps[cur]
            &&& concat_text(ps2.take(q + 1)).len() == m - (if r is Some { 1int } else { 0 })
            &&& r matches Some(ch) ==> 1 <= m && ch == t[m - 1] && concat_text(ps2) == t.remove(
                m - 1,
            )
            &&& r is None ==> concat_text(ps2) == t
        }),
{
    let q = last_nonempty_before(ps, cur);
    lemma_last_nonempty_before(ps, cur);
    let rot = rotate(ps, q + 1, cur);
    lemma_rotate_concat(ps, q + 1, cur);
    let t = concat_text(ps);
    // the pieces between the last one with text and `cur` are empty
    let run = ps.subrange(q + 1, cur);
    assert forall|i: int| 0 <= i < run.len() implies is_empty_piece(#[trigger] run[i])
        && run[i].text.well_formed() by {
        assert(run[i] == ps[q + 1 + i]);
    }
    crate::piece::lemma_concat_empty(run);
    assert(ps.take(cur) =~= ps.take(q + 1) + run);
    crate::piece::lemma_concat_append(ps.take(q + 1), run);
    assert(concat_text(ps.take(q + 1)) + Seq::<char>::empty() =~= concat_text(ps.take(q + 1)));
    let m = concat_text(ps.take(cur)).len() as int;
    assert(concat_text(ps.take(q + 1)).len() == m);
    assert(rot.take(q + 1) =~= ps.take(q + 1));
    if q >= 0 && may_edit(ps[q].buf, c) {
        let e = ps[q];
        let e2 = ps2[q];
        assert(e.text.well_formed());
        lemma_concat_around(ps, q);
        lemma_concat_around(rot, q);
        lemma_concat_around(ps2, q);
        assert(ps2.take(q) =~= ps.take(q));
        assert(rot.take(q) =~= ps.take(q));
        assert(ps2.skip(q + 1) =~= rot.skip(q + 1));
        assert(e.text.bytes().len() > 0);
        assert(e.text.text().len() > 0) by {
            crate::encoding::lemma_valid_between(
                e.text.buffer(),
                e.text.start() as int,
                e.text.end() as int,
            );
        }
        assert(e.text.text() =~= e.text.text().drop_last().push(e.text.text().last()));
        assert(ps2.take(q + 1) =~= ps2.take(q) + seq![e2]);
        crate::piece::lemma_concat_append(ps2.take(q), seq![e2]);
        crate::piece::lemma_concat_single(e2);
        assert(t[m - 1] == e.text.text().last());
        assert(concat_text(ps2) =~= t.remove(m - 1));
    } else {
        if q >= 0 {
            assert(rot.take(q + 1) =~= ps.take(q + 1));
        }
    }
}

/// A client other than `c` stays well formed in a table that `c` changed leaving alone what the
/// other clients own.
proof fn lemma_other_client_kept(cl: Client, p1: Piece, p2: Piece, c: int)
    requires
        cl.wf_in(p1),
        cl.number() != c,
        keeps_others(p1, p2, c),
        p1.piece_table.wf(),
        p2.piece_table.wf(),
    ensures
        cl.wf_in(p2),
{
    p1.piece_table.lemma_lengths();
    p2.piece_table.lemma_lengths();
    if cl.mode() is Some {
        let k = cl.mode()->0.key();
        let ks1 = p1.piece_table.keys();
        let ks2 = p2.piece_table.keys();
        let i = key_position(ks1, k);
        assert(0 <= i < ks1.len() && ks1[i] == k);
        assert(edited_by_other(p1.pieces()[i].buf, c));
        let j = choose|j: int|
            0 <= j < p2.pieces().len() && #[trigger] ks2[j] == ks1[i] && p2.pieces()[j].buf
                == p1.pieces()[i].buf && p2.pieces()[j].text.end() == p1.pieces()[i].text.end();
        lemma_key_position(ks2, k, j);
        assert(ks2.contains(k));
        assert(p2.buffers.clients@[cl.number() as int].1@ == p1.buffers.clients@[cl.number() as int].1@);
    }
}

impl Client {
    /// The number of the client, which is that of its buffer.
    pub closed spec fn number(&self) -> usize {
        self.bufnr
    }

    /// What the client keeps while in insert mode.
    pub closed spec fn mode(&self) -> Option<Insertdata> {
        self.data
    }

    /// The position of the piece the client is editing.
    pub open spec fn piece_index(&self, piece: Piece) -> int {
        key_position(piece.piece_table.keys(), self.mode()->0.key())
    }

    /// The character index of the client's cursor in the document: right after the text of
    /// the piece it is editing.
    pub open spec fn cursor(&self, piece: Piece) -> int {
        concat_text(piece.pieces().take(self.piece_index(piece) + 1)).len() as int
    }

    /// The client has a buffer in `piece`; in insert mode it edits a piece of the table, marked
    /// as edited by it, which reaches the end of its buffer unless it deleted since it typed.
    pub open spec fn wf_in(&self, piece: Piece) -> bool {
        &&& self.number() < piece.buffers.clients@.len()
        &&& self.mode() matches Some(d) ==> {
            &&& piece.piece_table.keys().contains(d.key())
            &&& piece.pieces()[self.piece_index(piece)].buf == Some((self.number(), true))
            &&& !d.deleted() ==> piece.pieces()[self.piece_index(piece)].text.end()
                == piece.buffers.clients@[self.number() as int].1@.len()
        }
    }

    /// Whether the client is in insert mode.
    pub fn in_insert(&self) -> (r: bool)
        ensures
            r == self.mode() is Some,
    {
        self.data.is_some()
    }

    /// Creates a client typing through the buffer `bufnr`, not in insert mode.
    pub fn new(bufnr: usize) -> (r: Self)
        ensures
            r.number() == bufnr,
            r.mode() is None,
    {
        Client { bufnr, data: None }
    }

    /// Exits insert mode.
    pub fn exit_insert(&mut self)
        ensures
            final(self).number() == old(self).number(),
            final(self).mode() is None,
    {
        self.data = None;
    }

    /// The position of the piece being edited, found by its key.
    fn find_piece(&self, piece: &Piece) -> (r: usize)
        requires
            piece.wf(),
            self.wf_in(*piece),
            self.mode() is Some,
        ensures
            r == self.piece_index(*piece),
            0 <= r < piece.pieces().len(),
    {
        proof {
            piece.piece_table.lemma_lengths();
        }
        let key = match &self.data {
            Some(d) => d.slice,
            None => 0,
        };
        match piece.piece_table.position_of(key) {
            Some(i) => {
                proof {
                    lemma_key_position(piece.piece_table.keys(), key, i as int);
                }
                i
            },
            None => {
                proof {
                    assert(false);
                }
                0
            },
        }
    }

    /// Appends a string at the cursor.
    #[verifier::rlimit(40)]
    pub fn push_str(&mut self, piece: &mut Piece, s: &str)
        requires
            !(old(piece).piece_table.lock_state() is Shared),
            old(piece).wf(),
            old(self).wf_in(*old(piece)),
            old(self).mode() is Some,
            push_room(*old(self), *old(piece), s.spec_bytes().len()),
        ensures
            final(piece).wf(),
            final(self).wf_in(*final(piece)),
            final(self).number() == old(self).number(),
            keeps_others(*old(piece), *final(piece), old(self).number() as int),
            final(piece).text() == old(piece).text().take(old(self).cursor(*old(piece))) + s@
                + old(piece).text().skip(old(self).cursor(*old(piece))),
            final(self).mode() is Some,
            final(self).cursor(*final(piece)) == old(self).cursor(*old(piece)) + s@.len(),
            s@.len() == 0 ==> final(self).mode() == old(self).mode() && *final(piece) == *old(piece),
            s@.len() > 0 ==> pushed(*old(self), *old(piece), *final(self), *final(piece), s@, s.spec_bytes()),
            s@.len() > 0 ==> !is_empty_piece(
                final(piece).pieces()[final(self).piece_index(*final(piece))],
            ),
    {
        let ghost m = old(self).cursor(*old(piece));
        let ghost txt = old(piece).text();
        let mut p = self.find_piece(piece);
        let ghost p0 = p as int;
        let ghost ps = old(piece).pieces();
        let ghost ks = old(piece).piece_table.keys();
        proof {
            old(piece).piece_table.lemma_lengths();
            lemma_concat_around(ps, p0);
            crate::piece::lemma_concat_split(ps, p0 + 1);
        }
        if s.is_empty() {
            proof {
                assert(txt.take(m) + s@ + txt.skip(m) =~= txt);
            }
            return;
        }
        let c = self.bufnr;
        let (deleted, pos) = match &self.data {
            Some(d) => (d.has_deleted, d.pos),
            None => (false, CursorPos { row: 0, col: 0 }),
        };
        if deleted {
            let writer = piece.piece_table.write_full().unwrap();
            proof {
                assert(piece.pieces() =~= ps);
            }
            let new_key = piece.add_client_piece(p, c);
            piece.piece_table.release_writer(writer);
            self.data = Some(Insertdata { slice: new_key, pos: pos + (0, 1), has_deleted: false });
            p = p + 1;
            proof {
                let ps1 = piece.pieces();
                assert(ps1[p as int].text.bytes() =~= Seq::<u8>::empty());
                crate::encoding::lemma_empty_utf8();
            }
        }
        let ghost mid = *piece;
        piece.append_to_piece(p, c, s);
        proof {
            let ps2 = piece.pieces();
            let ks2 = piece.piece_table.keys();
            piece.piece_table.lemma_lengths();
            lemma_key_position(ks2, self.mode()->0.key(), p as int);
            assert(ks2[p as int] == self.mode()->0.key());
            assert(ks2.contains(self.mode()->0.key()));
            lemma_concat_around(ps2, p as int);
            if deleted {
                assert(ps2.take(p0) =~= ps.take(p0));
                assert(ps2.skip(p0 + 2) =~= ps.skip(p0 + 1));
                assert(ps2.take(p0 + 1) =~= ps.take(p0) + seq![freed(ps[p0])]);
                crate::piece::lemma_concat_append(ps.take(p0), seq![freed(ps[p0])]);
                crate::piece::lemma_concat_single(freed(ps[p0]));
                assert(mid.pieces()[p as int].text.text() =~= Seq::<char>::empty());
                assert(ps2[p as int].text.text() =~= s@);
                assert(ps2 =~= ps.update(p0, freed(ps[p0])).insert(p0 + 1, ps2[p0 + 1]));
                assert(ks2 =~= ks.insert(p0 + 1, self.mode()->0.key()));
                assert forall|i: int|
                    0 <= i < ps.len() && edited_by_other((#[trigger] ps[i]).buf, c as int)
                        implies exists|j: int|
                    0 <= j < ps2.len() && #[trigger] ks2[j] == ks[i] && ps2[j].buf == ps[i].buf
                        && ps2[j].text.end() == ps[i].text.end() by {
                    let j = if i < p0 { i } else { i + 1 };
                    assert(ks2[j] == ks[i]);
                }
            } else {
                assert(ps2.take(p0) =~= ps.take(p0));
                assert(ps2.skip(p0 + 1) =~= ps.skip(p0 + 1));
                assert forall|i: int|
                    0 <= i < ps.len() && edited_by_other((#[trigger] ps[i]).buf, c as int)
                        implies exists|j: int|
                    0 <= j < ps2.len() && #[trigger] ks2[j] == ks[i] && ps2[j].buf == ps[i].buf
                        && ps2[j].text.end() == ps[i].text.end() by {
                    assert(ks2[i] == ks[i]);
                }
            }
            assert(piece.text() =~= txt.take(m) + s@ + txt.skip(m));
            let own = ps2[p as int];
            assert(own.text.well_formed()) by {
                piece.lemma_slices();
            }
            if is_empty_piece(own) {
                assert(own.text.bytes() =~= Seq::<u8>::empty());
                crate::encoding::lemma_empty_utf8();
            }
        }
    }

    /// Appends a character at the cursor.
    pub fn push_char(&mut self, piece: &mut Piece, to_push: char)
        requires
            !(old(piece).piece_table.lock_state() is Shared),
            old(piece).wf(),
            old(self).wf_in(*old(piece)),
            old(self).mode() is Some,
            push_room(*old(self), *old(piece), encode_utf8(seq![to_push]).len()),
        ensures
            final(piece).wf(),
            final(self).wf_in(*final(piece)),
            final(self).number() == old(self).number(),
            keeps_others(*old(piece), *final(piece), old(self).number() as int),
            final(piece).text() == old(piece).text().take(old(self).cursor(*old(piece))) + seq![
                to_push,
            ] + old(piece).text().skip(old(self).cursor(*old(piece))),
            final(self).mode() is Some,
            final(self).cursor(*final(piece)) == old(self).cursor(*old(piece)) + 1,
            !is_empty_piece(final(piece).pieces()[final(self).piece_index(*final(piece))]),
            pushed(
                *old(self),
                *old(piece),
                *final(self),
                *final(piece),
                seq![to_push],
                encode_utf8(seq![to_push]),
            ),
    {
        let mut s = String::new();
        crate::piece::string_push(&mut s, to_push);
        proof {
            assert(s@ =~= seq![to_push]);
        }
        self.push_str(piece, s.as_str());
    }

    /// Enters insert mode with the cursor at `pos`: the table is split there and an empty piece
    /// of this client's goes in between, at the end of its buffer (after a NUL character pushed
    /// onto it, which tells this piece apart from any other empty piece). Returns the byte offset
    /// within the piece that got split (`None` when the cursor is at or past the end of the
    /// document) and the id of the client's new piece.
    pub fn enter_insert(&mut self, piece: &mut Piece, pos: CursorPos) -> (r: (Option<usize>, usize))
        requires
            old(piece).wf(),
            old(self).wf_in(*old(piece)),
            insert_room(*old(self), *old(piece)),
        ensures
            final(piece).wf(),
            final(self).wf_in(*final(piece)),
            final(self).number() == old(self).number(),
            keeps_others(*old(piece), *final(piece), old(self).number() as int),
            final(piece).text() == old(piece).text(),
            final(self).mode() is Some,
            final(self).mode()->0.cursor_pos() == pos,
            !final(self).mode()->0.deleted(),
            final(self).cursor(*final(piece)) == insert_point(old(piece).text(), pos),
            is_empty_piece(final(piece).pieces()[final(self).piece_index(*final(piece))]),
            ({
                let c = old(self).number() as int;
                let bufs = old(piece).buffers;
                let n = old(piece).buffers.counter(c);
                let nc = bufs.clients@.len();
                let ps = old(piece).pieces();
                &&& r.1 == final(piece).pieces()[final(self).piece_index(*final(piece))].id
                &&& r.1 == (if r.0 == Some(0usize) { n } else { n + 1 }) * nc + c
                &&& final(piece).buffers.counter(c) == n + (if r.0 == Some(0usize) { 1int } else { 2 })
                &&& final(piece).buffers.clients@[c].1@ == bufs.clients@[c].1@ + encode_utf8(seq!['\0'])
                &&& (r.0 is None <==> cursor_offset(old(piece).text(), pos) is None)
                &&& r.0 matches Some(o) ==> exists|k: int|
                    0 <= k < ps.len() && bytes_before(ps, k) <= cursor_offset(old(piece).text(), pos).unwrap()
                        < bytes_before(ps, k + 1) && o == cursor_offset(old(piece).text(), pos).unwrap()
                        - bytes_before(ps, k)
            }),
            final(piece).piece_table.lock_state() == old(
                piece,
            ).piece_table.lock_state().after_lock_full_mut().after_drop_full_mut(),
            forall|o: Client|
                o.wf_in(*old(piece)) && o.mode() is Some && o.number() != old(self).number()
                    ==> #[trigger] o.cursor(*final(piece)) == o.cursor(*old(piece)),
    {
        let c = self.bufnr;
        let ghost p0 = *piece;
        let (offset, idx) = piece.insert_at(pos, c).unwrap();
        let ghost p1 = *piece;
        proof {
            p1.piece_table.lemma_lengths();
            p0.piece_table.lemma_lengths();
        }
        let id = piece.piece_table.get(idx).read().id;
        piece.restart_piece(idx, c);
        let key = piece.piece_table.get(idx).get_key();
        self.data = Some(Insertdata { slice: key, has_deleted: false, pos });
        proof {
            let ps = p0.pieces();
            let ks = p0.piece_table.keys();
            let ps1 = p1.pieces();
            let ps2 = piece.pieces();
            let ks2 = piece.piece_table.keys();
            piece.piece_table.lemma_lengths();
            lemma_key_position(ks2, key, idx as int);
            assert(ks2[idx as int] == key);
            assert(ks2.contains(key));
            // the document
            p0.lemma_slices();
            p1.lemma_slices();
            lemma_concat_around(ps1, idx as int);
            lemma_concat_around(ps2, idx as int);
            assert(ps2.take(idx as int) =~= ps1.take(idx as int));
            assert(ps2.skip(idx + 1) =~= ps1.skip(idx + 1));
            assert(ps1[idx as int].text.bytes() =~= Seq::<u8>::empty());
            assert(ps2[idx as int].text.bytes() =~= Seq::<u8>::empty());
            crate::encoding::lemma_empty_utf8();
            assert(piece.text() =~= p0.text());
            crate::piece::lemma_insert_point_bounds(p0.text(), pos);
            // the other clients' cursors
            assert(p1.text() == p0.text());
            assert forall|o: Client|
                o.wf_in(p0) && o.mode() is Some && o.number() != c implies #[trigger] o.cursor(
                *piece,
            ) == o.cursor(p0) by {
                let b = match offset {
                    Some(_) => cursor_offset(p0.text(), pos).unwrap(),
                    None => 0,
                };
                lemma_enter_other_cursor(p0, p1, *piece, idx as int, o, c as int, offset, b);
            }
            // the pieces the other clients edit
            assert forall|i: int|
                0 <= i < ps.len() && edited_by_other((#[trigger] ps[i]).buf, c as int)
                    implies exists|j: int|
                0 <= j < ps2.len() && #[trigger] ks2[j] == ks[i] && ps2[j].buf == ps[i].buf
                    && ps2[j].text.end() == ps[i].text.end() by {
                match offset {
                    None => {
                        assert(ps1.take(ps.len() as int)[i] == ps[i]);
                        assert(ks2[i] == ks[i]);
                    },
                    Some(o) => {
                        let j = lemma_split_keeps(
                            ps,
                            ks,
                            p0.piece_table.next_key(),
                            p0.buffers,
                            ps1,
                            p1.piece_table.keys(),
                            p1.buffers,
                            cursor_offset(p0.text(), pos).unwrap(),
                            o as int,
                            idx as int,
                            c as int,
                            i,
                        );
                        assert(ks2[j] == ks[i]);
                    },
                }
            }
            match offset {
                None => {},
                Some(o) => {
                    let k = if o == 0 { idx as int } else { idx - 1 };
                    assert(0 <= k < ps.len() && bytes_before(ps, k) <= cursor_offset(p0.text(), pos).unwrap());
                },
            }
        }
        (offset, id)
    }

    /// Moves the empty pieces right before the piece at `cur` behind it, then deletes the last
    /// character of the piece before it, when there is one and this client may edit it.
    /// Returns the deleted character and the number of pieces moved.
    fn delete_from_cursor(&self, piece: &mut Piece, cur: usize) -> (r: (Option<char>, usize))
        requires
            old(piece).piece_table.lock_state() is Exclusive,
            old(piece).wf(),
            cur < old(piece).pieces().len(),
        ensures
            final(piece).wf(),
            final(piece).buffers == old(piece).buffers,
            final(piece).piece_table.next_key() == old(piece).piece_table.next_key(),
            final(piece).piece_table.lock_state() == old(piece).piece_table.lock_state(),
            deleted_from(
                old(piece).pieces(),
                old(piece).piece_table.keys(),
                final(piece).pieces(),
                final(piece).piece_table.keys(),
                cur as int,
                self.number() as int,
                r.0,
            ),
            r.1 == empty_run(old(piece).pieces(), cur as int),
    {
        let ghost ps = old(piece).pieces();
        let ghost ks = old(piece).piece_table.keys();
        let ghost cur0 = cur as int;
        let mut cur = cur;
        let mut swaps: usize = 0;
        proof {
            old(piece).piece_table.lemma_lengths();
            lemma_rotate_none(ps, cur0);
            lemma_rotate_none(ks, cur0);
        }
        while cur > 0 && piece.piece_table.get(cur - 1).read().text.is_empty()
            invariant
                piece.wf(),
                ps == old(piece).pieces(),
                ks == old(piece).piece_table.keys(),
                ps.len() == ks.len(),
                piece.piece_table.elems().len() == ps.len(),
                0 <= cur <= cur0 < ps.len(),
                cur0 <= usize::MAX,
                piece.pieces() == rotate(ps, cur as int, cur0),
                piece.piece_table.keys() == rotate(ks, cur as int, cur0),
                forall|i: int| cur <= i < cur0 ==> is_empty_piece(#[trigger] ps[i]),
                swaps == cur0 - cur,
                piece.buffers == old(piece).buffers,
                piece.piece_table.next_key() == old(piece).piece_table.next_key(),
                piece.piece_table.lock_state() == old(piece).piece_table.lock_state(),
                old(piece).piece_table.lock_state() is Exclusive,
            decreases cur,
        {
            proof {
                piece.piece_table.lemma_lengths();
                lemma_rotate_step(ps, cur as int, cur0);
                lemma_rotate_step(ks, cur as int, cur0);
                assert(rotate(ps, cur as int, cur0)[cur - 1] == ps[cur - 1]);
            }
            piece.move_piece(cur - 1, cur);
            proof {
                piece.piece_table.lemma_lengths();
            }
            cur = cur - 1;
            swaps = swaps + 1;
        }
        proof {
            piece.piece_table.lemma_lengths();
            lemma_last_nonempty_run(ps, cur as int, cur0);
            if cur > 0 {
                assert(rotate(ps, cur as int, cur0)[cur - 1] == ps[cur - 1]);
            }
            lemma_last_nonempty_before(ps, cur as int);
            assert(last_nonempty_before(ps, cur0) == cur - 1);
        }
        if cur == 0 {
            return (None, swaps);
        }
        let prev = cur - 1;
        let buf = piece.piece_table.get(prev).read().buf;
        let allowed = match buf {
            None => true,
            Some((b, editing)) => !editing || b == self.bufnr,
        };
        proof {
            assert(rotate(ps, cur as int, cur0)[prev as int] == ps[prev as int]);
        }
        if allowed {
            let ch = piece.shrink_piece(prev);
            (Some(ch), swaps)
        } else {
            (None, swaps)
        }
    }

    /// Handles a backspace press by the client. When the piece it is editing holds text, its
    /// last character goes. Otherwise the empty pieces right before it are moved behind it, and
    /// the piece then before it loses its last character, unless another client is editing that
    /// piece or there is none (the cursor is at the start of the document). Returns the deleted
    /// character, `None` when nothing was deleted, and the number of pieces moved.
    pub fn backspace(&mut self, piece: &mut Piece) -> (r: (Option<char>, usize))
        requires
            !(old(piece).piece_table.lock_state() is Shared),
            old(piece).wf(),
            old(self).wf_in(*old(piece)),
            old(self).mode() is Some,
            is_empty_piece(old(piece).pieces()[old(self).piece_index(*old(piece))]) ==> old(
                piece,
            ).piece_table.lock_state().can_lock_full_mut(),
        ensures
            final(piece).wf(),
            final(self).wf_in(*final(piece)),
            final(self).number() == old(self).number(),
            keeps_others(*old(piece), *final(piece), old(self).number() as int),
            final(self).mode() is Some,
            final(self).mode()->0.deleted(),
            final(self).mode()->0.key() == old(self).mode()->0.key(),
            final(self).mode()->0.cursor_pos() == old(self).mode()->0.cursor_pos(),
            ({
                let t = old(piece).text();
                let m = old(self).cursor(*old(piece));
                let ps = old(piece).pieces();
                let ks = old(piece).piece_table.keys();
                let ps2 = final(piece).pieces();
                let ks2 = final(piece).piece_table.keys();
                let p = old(self).piece_index(*old(piece));
                let q = last_nonempty_before(ps, p);
                let c = old(self).number() as int;
                &&& r.0 matches Some(ch) ==> 1 <= m && ch == t[m - 1] && final(piece).text()
                    == t.remove(m - 1)
                &&& r.0 is None ==> final(piece).text() == t
                &&& (r.0 is Some <==> !is_empty_piece(ps[p]) || (q >= 0 && may_edit(ps[q].buf, c)))
                &&& final(self).cursor(*final(piece)) == m - (if r.0 is Some { 1int } else { 0 })
                &&& final(piece).buffers == old(piece).buffers
                &&& !is_empty_piece(ps[p]) ==> {
                    &&& r.1 == 0
                    &&& ps2 == ps.update(p, ps2[p])
                    &&& shrunk(ps[p], ps2[p])
                    &&& ks2 == ks
                    &&& final(piece).piece_table.lock_state() == old(piece).piece_table.lock_state()
                }
                &&& is_empty_piece(ps[p]) ==> {
                    &&& deleted_from(ps, ks, ps2, ks2, p, c, r.0)
                    &&& r.1 == empty_run(ps, p)
                    &&& final(piece).piece_table.lock_state() == old(
                        piece,
                    ).piece_table.lock_state().after_lock_full_mut().after_drop_full_mut()
                }
            }),
    {
        let p = self.find_piece(piece);
        let ghost ps = old(piece).pieces();
        let ghost ks = old(piece).piece_table.keys();
        let ghost c = self.bufnr as int;
        proof {
            old(piece).piece_table.lemma_lengths();
            old(piece).lemma_slices();
        }
        let (key, pos) = match &self.data {
            Some(d) => (d.slice, d.pos),
            None => (0, CursorPos { row: 0, col: 0 }),
        };
        self.data = Some(Insertdata { slice: key, pos, has_deleted: true });
        if piece.piece_table.get(p).read().text.is_empty() {
            let writer = piece.piece_table.write_full().unwrap();
            proof {
                assert(piece.pieces() =~= ps);
            }
            let r = self.delete_from_cursor(piece, p);
            piece.piece_table.release_writer(writer);
            proof {
                let ps2 = piece.pieces();
                let ks2 = piece.piece_table.keys();
                let q = last_nonempty_before(ps, p as int);
                lemma_last_nonempty_before(ps, p as int);
                lemma_deleted_text(ps, ks, ps2, ks2, p as int, c, r.0);
                piece.piece_table.lemma_lengths();
                lemma_rotate_index(ks, q + 1, p as int, p as int);
                lemma_key_position(ks2, key, q + 1);
                assert(ks2[q + 1] == key);
                assert(ks2.contains(key));
                // the cursor: the client's piece now follows the text before it
                lemma_concat_around(ps, p as int);
                assert(ps[p as int].text.bytes() =~= Seq::<u8>::empty());
                crate::encoding::lemma_empty_utf8();
                lemma_concat_around(ps2, q + 1);
                assert(concat_text(ps.take(p as int)) + Seq::<char>::empty() =~= concat_text(
                    ps.take(p as int),
                ));
                assert(concat_text(ps2.take(q + 1)) + Seq::<char>::empty() =~= concat_text(
                    ps2.take(q + 1),
                ));
                // the pieces the other clients edit
                assert forall|i: int|
                    0 <= i < ps.len() && edited_by_other((#[trigger] ps[i]).buf, c) implies exists|
                    j: int,
                |
                    0 <= j < ps2.len() && #[trigger] ks2[j] == ks[i] && ps2[j].buf == ps[i].buf
                        && ps2[j].text.end() == ps[i].text.end() by {
                    let j = rotated_index(q + 1, p as int, i);
                    lemma_rotate_index(ps, q + 1, p as int, i);
                    lemma_rotate_index(ks, q + 1, p as int, i);
                    assert(ks2[j] == ks[i]);
                }
            }
            r
        } else {
            let ch = piece.shrink_piece(p);
            proof {
                let ps2 = piece.pieces();
                let ks2 = piece.piece_table.keys();
                lemma_key_position(ks2, key, p as int);
                assert(ks2[p as int] == key);
                lemma_concat_around(ps, p as int);
                lemma_concat_around(ps2, p as int);
                assert(ps2.take(p as int) =~= ps.take(p as int));
                assert(ps2.skip(p + 1) =~= ps.skip(p + 1));
                let e = ps[p as int];
                assert(e.text.text() =~= e.text.text().drop_last().push(e.text.text().last()));
                assert(old(piece).text().remove(old(self).cursor(*old(piece)) - 1) =~= piece.text());
                assert forall|i: int|
                    0 <= i < ps.len() && edited_by_other((#[trigger] ps[i]).buf, c) implies exists|
                    j: int,
                |
                    0 <= j < ps2.len() && #[trigger] ks2[j] == ks[i] && ps2[j].buf == ps[i].buf
                        && ps2[j].text.end() == ps[i].text.end() by {
                    assert(ks2[i] == ks[i]);
                }
            }
            (Some(ch), 0)
        }
    }

    /// Moves up to `max` of the empty pieces right before the piece at `cur` behind it, one at
    /// a time, stopping at a piece with text or at the start of the table. Returns where
    /// deleting goes on from: the piece from `cur`, or the piece with text that stopped the
    /// moves before `max` of them were made.
    fn swap_back(&self, piece: &mut Piece, cur: usize, max: usize) -> (r: usize)
        requires
            old(piece).piece_table.lock_state() is Exclusive,
            old(piece).wf(),
            cur < old(piece).pieces().len(),
        ensures
            final(piece).wf(),
            final(piece).buffers == old(piece).buffers,
            final(piece).piece_table.next_key() == old(piece).piece_table.next_key(),
            final(piece).piece_table.lock_state() == old(piece).piece_table.lock_state(),
            final(piece).pieces() == rotate(
                old(piece).pieces(),
                swap_start(old(piece).pieces(), cur as int, max as int),
                cur as int,
            ),
            final(piece).piece_table.keys() == rotate(
                old(piece).piece_table.keys(),
                swap_start(old(piece).pieces(), cur as int, max as int),
                cur as int,
            ),
            r == swap_cursor(old(piece).pieces(), cur as int, max as int),
    {
        let ghost ps = old(piece).pieces();
        let ghost ks = old(piece).piece_table.keys();
        let ghost cur0 = cur as int;
        let mut cur = cur;
        let mut moved: usize = 0;
        proof {
            old(piece).piece_table.lemma_lengths();
            lemma_rotate_none(ps, cur0);
            lemma_rotate_none(ks, cur0);
        }
        while moved < max && cur > 0 && piece.piece_table.get(cur - 1).read().text.is_empty()
            invariant
                piece.wf(),
                ps == old(piece).pieces(),
                ks == old(piece).piece_table.keys(),
                ps.len() == ks.len(),
                piece.piece_table.elems().len() == ps.len(),
                0 <= cur <= cur0 < ps.len(),
                cur0 <= usize::MAX,
                piece.pieces() == rotate(ps, cur as int, cur0),
                piece.piece_table.keys() == rotate(ks, cur as int, cur0),
                forall|i: int| cur <= i < cur0 ==> is_empty_piece(#[trigger] ps[i]),
                moved == cur0 - cur,
                moved <= max,
                piece.buffers == old(piece).buffers,
                piece.piece_table.next_key() == old(piece).piece_table.next_key(),
                piece.piece_table.lock_state() == old(piece).piece_table.lock_state(),
                old(piece).piece_table.lock_state() is Exclusive,
            decreases cur,
        {
            proof {
                piece.piece_table.lemma_lengths();
                lemma_rotate_step(ps, cur as int, cur0);
                lemma_rotate_step(ks, cur as int, cur0);
                assert(rotate(ps, cur as int, cur0)[cur - 1] == ps[cur - 1]);
            }
            piece.move_piece(cur - 1, cur);
            proof {
                piece.piece_table.lemma_lengths();
            }
            cur = cur - 1;
            moved = moved + 1;
        }
        proof {
            lemma_last_nonempty_run(ps, cur as int, cur0);
            lemma_last_nonempty_before(ps, cur as int);
            if cur > 0 {
                assert(rotate(ps, cur as int, cur0)[cur - 1] == ps[cur - 1]);
            }
        }
        if moved < max && cur > 0 {
            cur - 1
        } else {
            cur
        }
    }

    /// Handles a backspace press that another copy of the document made with `swaps` moves of
    /// empty pieces: with none, it is `backspace`; otherwise up to `swaps` of the empty pieces
    /// right before the client's piece are moved behind it, one at a time, and deleting goes on
    /// from where those moves stopped. Returns the deleted character, `None` when nothing was
    /// deleted.
    #[verifier::rlimit(50)]
    pub fn backspace_with_swaps(&mut self, piece: &mut Piece, swaps: usize) -> (r: Option<char>)
        requires
            !(old(piece).piece_table.lock_state() is Shared),
            old(piece).wf(),
            old(self).wf_in(*old(piece)),
            old(self).mode() is Some,
            (swaps > 0 || is_empty_piece(old(piece).pieces()[old(self).piece_index(*old(piece))]))
                ==> old(piece).piece_table.lock_state().can_lock_full_mut(),
        ensures
            final(piece).wf(),
            final(self).wf_in(*final(piece)),
            final(self).number() == old(self).number(),
            keeps_others(*old(piece), *final(piece), old(self).number() as int),
            final(self).mode() is Some,
            final(self).mode()->0.key() == old(self).mode()->0.key(),
            final(self).mode()->0.cursor_pos() == old(self).mode()->0.cursor_pos(),
            final(piece).buffers == old(piece).buffers,
            old(piece).piece_table.lock_state().can_lock_full_mut()
                ==> final(piece).piece_table.lock_state().can_lock_full_mut(),
            ({
                let t = old(piece).text();
                let j = deleted_point(*old(self), *old(piece), swaps as int);
                &&& r matches Some(ch) ==> 0 <= j && ch == t[j] && final(piece).text() == t.remove(j)
                &&& r is None ==> final(piece).text() == t
            }),
            r is Some <==> deletes_with_swaps(*old(self), *old(piece), swaps as int),
            swaps == 0 ==> final(self).mode()->0.deleted(),
            final(self).cursor(*final(piece)) == old(self).cursor(*old(piece)) - (if r is Some {
                1int
            } else {
                0
            }),
            swaps == 0 && !is_empty_piece(old(piece).pieces()[old(self).piece_index(*old(piece))])
                ==> ({
                let p = old(self).piece_index(*old(piece));
                &&& final(piece).pieces() == old(piece).pieces().update(p, final(piece).pieces()[p])
                &&& shrunk(old(piece).pieces()[p], final(piece).pieces()[p])
                &&& final(piece).piece_table.keys() == old(piece).piece_table.keys()
            }),
            swaps > 0 ==> ({
                let ps = old(piece).pieces();
                let ks = old(piece).piece_table.keys();
                let p = old(self).piece_index(*old(piece));
                let a = swap_start(ps, p, swaps as int);
                let c1 = swap_cursor(ps, p, swaps as int);
                &&& final(self).mode() == old(self).mode()
                &&& deleted_from(
                    rotate(ps, a, p),
                    rotate(ks, a, p),
                    final(piece).pieces(),
                    final(piece).piece_table.keys(),
                    c1,
                    old(self).number() as int,
                    r,
                )
                &&& final(piece).piece_table.lock_state() == old(
                    piece,
                ).piece_table.lock_state().after_lock_full_mut().after_drop_full_mut()
            }),
    {
        if swaps == 0 {
            let r = self.backspace(piece);
            return r.0;
        }
        let p = self.find_piece(piece);
        let ghost ps = old(piece).pieces();
        let ghost ks = old(piece).piece_table.keys();
        let ghost c = self.bufnr as int;
        let ghost key = self.mode()->0.key();
        proof {
            old(piece).piece_table.lemma_lengths();
            old(piece).lemma_slices();
        }
        let writer = piece.piece_table.write_full().unwrap();
        proof {
            assert(piece.pieces() =~= ps);
        }
        let cursor = self.swap_back(piece, p, swaps);
        let ghost ps1 = piece.pieces();
        let ghost ks1 = piece.piece_table.keys();
        let ghost a = swap_start(ps, p as int, swaps as int);
        proof {
            piece.piece_table.lemma_lengths();
            piece.lemma_slices();
            lemma_last_nonempty_before(ps, p as int);
            lemma_rotate_concat(ps, a, p as int);
        }
        let r = self.delete_from_cursor(piece, cursor);
        piece.piece_table.release_writer(writer);
        proof {
            let ps2 = piece.pieces();
            let ks2 = piece.piece_table.keys();
            piece.piece_table.lemma_lengths();
            let q1 = last_nonempty_before(ps1, cursor as int);
            lemma_last_nonempty_before(ps1, cursor as int);
            lemma_deleted_text(ps1, ks1, ps2, ks2, cursor as int, c, r.0);
            lemma_swap_delete_cursor(ps, ks, ps2, ks2, p as int, swaps as int, c, r.0);
            // the client's piece
            let own = rotated_index(q1 + 1, cursor as int, a);
            lemma_rotate_index(ks, a, p as int, p as int);
            lemma_rotate_index(ks1, q1 + 1, cursor as int, a);
            lemma_rotate_index(ps1, q1 + 1, cursor as int, a);
            assert(ks2[own] == key);
            lemma_key_position(ks2, key, own);
            assert(ks2.contains(key));
            // the pieces the other clients edit
            assert forall|i: int|
                0 <= i < ps.len() && edited_by_other((#[trigger] ps[i]).buf, c) implies exists|
                j: int,
            |
                0 <= j < ps2.len() && #[trigger] ks2[j] == ks[i] && ps2[j].buf == ps[i].buf
                    && ps2[j].text.end() == ps[i].text.end() by {
                let i1 = rotated_index(a, p as int, i);
                lemma_rotate_index(ps, a, p as int, i);
                lemma_rotate_index(ks, a, p as int, i);
                let j = rotated_index(q1 + 1, cursor as int, i1);
                lemma_rotate_index(ps1, q1 + 1, cursor as int, i1);
                lemma_rotate_index(ks1, q1 + 1, cursor as int, i1);
                assert(ks2[j] == ks[i]);
            }
        }
        r.0
    }
}



/// A document that several clients edit, each through a buffer of its own.
#[derive(Debug)]
pub struct Text {
    table: Piece,
    clients: Vec<Client>,
}

/// Where the cursor of client `j` of `t` is once client `c` typed `n` characters: `n` on when
/// `j`'s piece comes after `c`'s, where it was otherwise.
pub open spec fn cursor_after_typing(t: Text, c: int, j: int, n: int) -> int {
    if t.members()[j].piece_index(t.piece()) > t.members()[c].piece_index(t.piece()) {
        t.cursor_of(j) + n
    } else {
        t.cursor_of(j)
    }
}

impl Text {
    /// The piece table holding the document.
    pub closed spec fn piece(&self) -> Piece {
        self.table
    }

    /// The clients, by number.
    pub closed spec fn members(&self) -> Seq<Client> {
        self.clients@
    }

    /// The characters of the document.
    pub open spec fn text(&self) -> Seq<char> {
        self.piece().text()
    }

    /// The character index of the cursor of client `i`.
    pub open spec fn cursor_of(&self, i: int) -> int {
        self.members()[i].cursor(self.piece())
    }

    /// Whether the piece client `i` is editing holds text.
    pub open spec fn typing(&self, i: int) -> bool {
        !is_empty_piece(self.piece().pieces()[self.members()[i].piece_index(self.piece())])
    }

    /// The table is well formed, holds a piece, and no lock on the full table is held; client
    /// `i` has number `i`, buffer `i`, and is well formed in the table.
    pub open spec fn wf(&self) -> bool {
        &&& self.piece().wf()
        &&& self.piece().pieces().len() >= 1
        &&& self.piece().piece_table.lock_state().can_lock_full_mut()
        &&& self.members().len() == self.piece().buffers.clients@.len()
        &&& forall|i: int|
            0 <= i < self.members().len() ==> (#[trigger] self.members()[i]).number() == i
                && self.members()[i].wf_in(self.piece())
    }

    /// The clients other than `i` are as they were, and well formed in the new table.
    pub open spec fn others_kept(&self, old: &Text, i: int) -> bool {
        &&& self.members().len() == old.members().len()
        &&& forall|j: int|
            0 <= j < self.members().len() && j != i ==> #[trigger] self.members()[j]
                == old.members()[j]
    }

    /// Wraps an existing piece table, with no clients.
    pub fn with_piece(piece: Piece) -> (r: Self)
        requires
            piece.wf(),
        ensures
            r.piece() == piece,
            r.members().len() == 0,
            piece.buffers.clients@.len() == 0 && piece.pieces().len() >= 1
                && piece.piece_table.lock_state().can_lock_full_mut() ==> r.wf(),
    {
        Text { table: piece, clients: Vec::new() }
    }

    /// Creates a text whose original buffer holds `original`.
    pub fn original_from_str(original: &str) -> (r: Self)
        requires
            original.spec_bytes().len() <= isize::MAX,
        ensures
            r.wf(),
            r.text() == original@,
            r.piece().bytes() == original.spec_bytes(),
            r.members().len() == 0,
            r.piece().buffers.clients@.len() == 0,
            r.piece().pieces().len() == 1,
            r.piece().piece_table.next_key() == 1,
    {
        Self::with_piece(Piece::original_from_str(original))
    }

    /// Creates an empty text.
    pub fn new() -> (r: Self)
        ensures
            r.wf(),
            r.text() == Seq::<char>::empty(),
            r.piece().bytes() == Seq::<u8>::empty(),
            r.members().len() == 0,
            r.piece().buffers.clients@.len() == 0,
            r.piece().pieces().len() == 1,
            r.piece().piece_table.next_key() == 1,
    {
        let piece = Piece::new();
        proof {
            piece.lemma_slices();
            crate::encoding::lemma_empty_utf8();
        }
        Self::with_piece(piece)
    }

    /// Adds a client with a buffer of its own and returns its number.
    pub fn add_client(&mut self) -> (r: usize)
        requires
            old(self).wf(),
            old(self).members().len() < usize::MAX,
        ensures
            final(self).wf(),
            r == old(self).members().len(),
            final(self).members().len() == old(self).members().len() + 1,
            final(self).members().take(r as int) == old(self).members(),
            final(self).members()[r as int].mode() is None,
            final(self).piece().pieces() == old(self).piece().pieces(),
            final(self).text() == old(self).text(),
            final(self).piece().piece_table == old(self).piece().piece_table,
            final(self).piece().buffers.original == old(self).piece().buffers.original,
            final(self).piece().buffers.clients@.take(r as int) == old(self).piece().buffers.clients@,
            final(self).piece().buffers.counter(r as int) == 0,
            final(self).piece().buffers.clients@[r as int].1@ == Seq::<u8>::empty(),
            final(self).piece().buffers.clients@[r as int].1.room() == 0,
            forall|j: int|
                0 <= j < old(self).members().len() && old(self).members()[j].mode() is Some
                    ==> #[trigger] final(self).cursor_of(j) == old(self).cursor_of(j),
    {
        let n = self.clients.len();
        self.table.buffers.clients.push((crate::utils::AutoIncrementing::new(), crate::append_only_str::AppendOnlyStr::new()));
        self.clients.push(Client::new(n));
        proof {
            let p0 = old(self).piece();
            let p1 = self.piece();
            assert forall|i: int| 0 <= i < p1.pieces().len() implies crate::piece::piece_in_buffers(
                #[trigger] p1.pieces()[i],
                p1.buffers,
            ) by {
                let e = p1.pieces()[i];
                assert(crate::piece::piece_in_buffers(p0.pieces()[i], p0.buffers));
                match e.buf {
                    None => {},
                    Some((b, _)) => {
                        assert(p1.buffers.clients@[b as int] == p0.buffers.clients@[b as int]);
                    },
                }
            }
            assert forall|i: int| 0 <= i < self.members().len() implies (#[trigger] self.members()[i]).number() == i
                && self.members()[i].wf_in(self.piece()) by {
                if i < n {
                    assert(self.members()[i] == old(self).members()[i]);
                    assert(old(self).members()[i].wf_in(p0));
                    if self.members()[i].mode() is Some {
                        assert(p1.buffers.clients@[i] == p0.buffers.clients@[i]);
                    }
                }
            }
            assert(self.members().take(n as int) =~= old(self).members());
            assert(p1.buffers.clients@.take(n as int) =~= p0.buffers.clients@);
            assert forall|j: int|
                0 <= j < old(self).members().len() && old(self).members()[j].mode() is Some
                    implies #[trigger] self.cursor_of(j) == old(self).cursor_of(j) by {
                assert(self.members()[j] == old(self).members()[j]);
            }
        }
        n
    }

    /// The lines of the document.
    pub fn lines(&self) -> (r: Vec<String>)
        requires
            self.wf(),
        ensures
            r@.map_values(|l: String| l@) == crate::piece::split_lines(self.text()),
    {
        self.table.lines()
    }

    /// The characters of the document.
    pub fn chars(&self) -> (r: Vec<char>)
        requires
            self.wf(),
        ensures
            r@ == self.text(),
    {
        self.table.chars()
    }

    /// The elements of the piece table.
    pub fn bufs(&self) -> (r: &[crate::table::InnerTable<TableElem>])
        ensures
            r@ == self.piece().piece_table.elems(),
    {
        self.table.bufs()
    }

    /// The client with number `idx`.
    pub fn client(&self, idx: usize) -> (r: &Client)
        requires
            idx < self.members().len(),
        ensures
            *r == self.members()[idx as int],
    {
        &self.clients[idx]
    }

    /// All the clients, by number.
    pub fn clients(&self) -> (r: &[Client])
        ensures
            r@ == self.members(),
    {
        self.clients.as_slice()
    }

    /// Takes client `i` out, leaving a placeholder in its place.
    fn take_client(&mut self, i: usize) -> (r: Client)
        requires
            i < old(self).members().len(),
        ensures
            r == old(self).members()[i as int],
            final(self).members() == old(self).members().update(i as int, final(self).members()[i as int]),
            final(self).piece() == old(self).piece(),
    {
        let mut cl = Client::new(0);
        self.clients.set_and_swap(i, &mut cl);
        cl
    }

    /// Puts client `cl` back in place `i`.
    fn put_client(&mut self, i: usize, cl: Client)
        requires
            i < old(self).members().len(),
        ensures
            final(self).members() == old(self).members().update(i as int, cl),
            final(self).piece() == old(self).piece(),
    {
        let mut cl = cl;
        self.clients.set_and_swap(i, &mut cl);
    }

    /// After client `i` acted on the table keeping what the others own, the text is well formed
    /// again.
    proof fn lemma_wf_after(&self, old: &Text, i: int)
        requires
            old.wf(),
            0 <= i < old.members().len(),
            self.members() == old.members().update(i, self.members()[i]),
            self.piece().wf(),
            self.piece().pieces().len() >= 1,
            self.piece().piece_table.lock_state().can_lock_full_mut(),
            self.members()[i].number() == i,
            self.members()[i].wf_in(self.piece()),
            keeps_others(old.piece(), self.piece(), i),
        ensures
            self.wf(),
            self.others_kept(old, i),
    {
        assert forall|j: int| 0 <= j < self.members().len() implies (#[trigger] self.members()[j]).number() == j
            && self.members()[j].wf_in(self.piece()) by {
            if j != i {
                assert(self.members()[j] == old.members()[j]);
                assert(old.members()[j].wf_in(old.piece()));
                lemma_other_client_kept(old.members()[j], old.piece(), self.piece(), i);
            }
        }
    }

    /// The bytes of the document, piece after piece, as they are written to its file: the UTF-8
    /// encoding of its text.
    pub fn file_bytes(&self) -> (r: Vec<u8>)
        requires
            self.wf(),
        ensures
            r@ == self.piece().bytes(),
            r@ == encode_utf8(self.text()),
    {
        let piece = &self.table;
        proof {
            piece.lemma_slices();
        }
        let elems = piece.piece_table.elements();
        let mut out: Vec<u8> = Vec::new();
        let mut i: usize = 0;
        while i < elems.len()
            invariant
                elems@ == piece.piece_table.elems(),
                i <= elems@.len(),
                out@ == concat_bytes(piece.pieces().take(i as int)),
            decreases elems@.len() - i,
        {
            let bytes = elems[i].read().text.as_str().as_bytes();
            proof {
                let ps = piece.pieces();
                assert(ps[i as int] == elems@[i as int].value());
                lemma_concat_append(ps.take(i as int), seq![ps[i as int]]);
                lemma_concat_single(ps[i as int]);
                assert(ps.take(i as int) + seq![ps[i as int]] =~= ps.take(i + 1));
            }
            let mut k: usize = 0;
            let ghost start = out@;
            while k < bytes.len()
                invariant
                    k <= bytes@.len(),
                    out@ == start + bytes@.take(k as int),
                decreases bytes@.len() - k,
            {
                out.push(bytes[k]);
                proof {
                    assert(bytes@.take(k + 1) =~= bytes@.take(k as int).push(bytes@[k as int]));
                }
                k = k + 1;
            }
            proof {
                assert(bytes@.take(k as int) =~= bytes@);
            }
            i = i + 1;
        }
        proof {
            assert(piece.pieces().take(i as int) =~= piece.pieces());
            vstd::utf8::encode_utf8_decode_utf8(self.text());
            vstd::utf8::decode_utf8_encode_utf8(piece.bytes());
        }
        out
    }

    /// Whether client `client`, in insert mode, has room to type `n` bytes: the test of
    /// `push_room`.
    pub fn has_push_room(&self, client: usize, n: usize) -> (r: bool)
        requires
            self.wf(),
            client < self.members().len(),
            self.members()[client as int].mode() is Some,
        ensures
            r == push_room(self.members()[client as int], self.piece(), n as nat),
    {
        let ghost cl = self.members()[client as int];
        assert(cl.number() == client);
        let bufs = &self.table.buffers;
        if !bufs.clients[client].1.has_room_for(n) {
            return false;
        }
        let d = match &self.clients[client].data {
            Some(d) => d,
            None => return false,
        };
        if !d.has_deleted {
            return true;
        }
        let counter = bufs.clients[client].0.peek();
        if counter == usize::MAX {
            return false;
        }
        let id_ok = match counter.checked_mul(bufs.clients.len()) {
            Some(x) => x <= usize::MAX - client,
            None => false,
        };
        if !id_ok {
            return false;
        }
        let table = &self.table.piece_table;
        let lockable = match table.state() {
            crate::table::TableState::Shared(_) => false,
            crate::table::TableState::Exclusive(_) => false,
            _ => true,
        };
        table.upcoming_key() < usize::MAX && table.len() < usize::MAX && lockable && d.pos.row
            <= isize::MAX as usize && d.pos.col < isize::MAX as usize
    }

    /// Whether client `client` has room to enter insert mode: the test of `insert_room`.
    pub fn has_insert_room(&self, client: usize) -> (r: bool)
        requires
            self.wf(),
            client < self.members().len(),
        ensures
            r == insert_room(self.members()[client as int], self.piece()),
    {
        let ghost cl = self.members()[client as int];
        assert(cl.number() == client);
        let bufs = &self.table.buffers;
        let table = &self.table.piece_table;
        if !crate::piece::below_max_len(&self.table) {
            return false;
        }
        let key = table.upcoming_key();
        if key > usize::MAX - 2 {
            return false;
        }
        let counter = bufs.clients[client].0.peek();
        if counter > usize::MAX - 2 {
            proof {
                let len = bufs.clients@.len();
                assert((counter + 2) * len >= counter + 2) by (nonlinear_arith)
                    requires
                        len >= 1,
                ;
            }
            return false;
        }
        let id_ok = match (counter + 2).checked_mul(bufs.clients.len()) {
            Some(x) => x <= usize::MAX - client,
            None => false,
        };
        if !id_ok {
            return false;
        }
        let nul = crate::encoding::char_utf8_len('\0');
        bufs.clients[client].1.has_room_for(nul)
    }

    /// Client `client` enters insert mode with its cursor at `pos`; see `Client::enter_insert`.
    pub fn enter_insert(&mut self, client: usize, pos: CursorPos) -> (r: (Option<usize>, usize))
        requires
            old(self).wf(),
            client < old(self).members().len(),
            insert_room(old(self).members()[client as int], old(self).piece()),
        ensures
            final(self).wf(),
            final(self).others_kept(old(self), client as int),
            final(self).text() == old(self).text(),
            final(self).members()[client as int].mode() is Some,
            final(self).members()[client as int].mode()->0.cursor_pos() == pos,
            final(self).cursor_of(client as int) == insert_point(old(self).text(), pos),
            forall|j: int|
                0 <= j < old(self).members().len() && j != client && old(self).members()[j].mode()
                    is Some ==> #[trigger] final(self).cursor_of(j) == old(self).cursor_of(j),
    {
        let mut cl = self.take_client(client);
        let r = cl.enter_insert(&mut self.table, pos);
        self.put_client(client, cl);
        proof {
            assert(self.members() =~= old(self).members().update(client as int, self.members()[client as int]));
            self.lemma_wf_after(old(self), client as int);
            assert forall|j: int|
                0 <= j < old(self).members().len() && j != client && old(self).members()[j].mode()
                    is Some implies #[trigger] self.cursor_of(j) == old(self).cursor_of(j) by {
                assert(self.members()[j] == old(self).members()[j]);
                assert(old(self).members()[j].number() == j);
                assert(old(self).members()[j].wf_in(old(self).piece()));
            }
        }
        r
    }

    /// Client `client` types `s` at its cursor; see `Client::push_str`.
    pub fn push_str(&mut self, client: usize, s: &str)
        requires
            old(self).wf(),
            client < old(self).members().len(),
            old(self).members()[client as int].mode() is Some,
            push_room(old(self).members()[client as int], old(self).piece(), s.spec_bytes().len()),
        ensures
            final(self).wf(),
            final(self).others_kept(old(self), client as int),
            final(self).text() == old(self).text().take(old(self).cursor_of(client as int)) + s@
                + old(self).text().skip(old(self).cursor_of(client as int)),
            final(self).cursor_of(client as int) == old(self).cursor_of(client as int) + s@.len(),
            final(self).members()[client as int].mode() is Some,
            s@.len() > 0 ==> !final(self).members()[client as int].mode()->0.deleted(),
            s@.len() > 0 ==> final(self).typing(client as int),
            forall|j: int|
                0 <= j < old(self).members().len() && j != client && old(self).members()[j].mode()
                    is Some ==> #[trigger] final(self).cursor_of(j) == cursor_after_typing(
                    *old(self),
                    client as int,
                    j,
                    s@.len() as int,
                ),
    {
        let mut cl = self.take_client(client);
        cl.push_str(&mut self.table, s);
        self.put_client(client, cl);
        proof {
            assert(self.members() =~= old(self).members().update(client as int, self.members()[client as int]));
            self.lemma_wf_after(old(self), client as int);
            assert forall|j: int|
                0 <= j < old(self).members().len() && j != client && old(self).members()[j].mode()
                    is Some implies #[trigger] self.cursor_of(j) == cursor_after_typing(
                    *old(self),
                    client as int,
                    j,
                    s@.len() as int,
                ) by {
                assert(self.members()[j] == old(self).members()[j]);
                assert(old(self).members()[j].number() == j);
                if s@.len() > 0 {
                    lemma_pushed_other_cursor(
                        old(self).members()[client as int],
                        old(self).piece(),
                        self.members()[client as int],
                        self.piece(),
                        s@,
                        s.spec_bytes(),
                        old(self).members()[j],
                    );
                }
            }
        }
    }

    /// Client `client` types `c` at its cursor; see `Client::push_char`.
    pub fn push_char(&mut self, client: usize, c: char)
        requires
            old(self).wf(),
            client < old(self).members().len(),
            old(self).members()[client as int].mode() is Some,
            push_room(old(self).members()[client as int], old(self).piece(), encode_utf8(seq![c]).len()),
        ensures
            final(self).wf(),
            final(self).others_kept(old(self), client as int),
            final(self).text() == old(self).text().take(old(self).cursor_of(client as int)) + seq![c]
                + old(self).text().skip(old(self).cursor_of(client as int)),
            final(self).cursor_of(client as int) == old(self).cursor_of(client as int) + 1,
            final(self).members()[client as int].mode() is Some,
            !final(self).members()[client as int].mode()->0.deleted(),
            final(self).typing(client as int),
            forall|j: int|
                0 <= j < old(self).members().len() && j != client && old(self).members()[j].mode()
                    is Some ==> #[trigger] final(self).cursor_of(j) == cursor_after_typing(
                    *old(self),
                    client as int,
                    j,
                    1,
                ),
    {
        let mut cl = self.take_client(client);
        cl.push_char(&mut self.table, c);
        self.put_client(client, cl);
        proof {
            assert(self.members() =~= old(self).members().update(client as int, self.members()[client as int]));
            self.lemma_wf_after(old(self), client as int);
            assert forall|j: int|
                0 <= j < old(self).members().len() && j != client && old(self).members()[j].mode()
                    is Some implies #[trigger] self.cursor_of(j) == cursor_after_typing(
                    *old(self),
                    client as int,
                    j,
                    1,
                ) by {
                assert(self.members()[j] == old(self).members()[j]);
                assert(old(self).members()[j].number() == j);
                lemma_pushed_other_cursor(
                    old(self).members()[client as int],
                    old(self).piece(),
                    self.members()[client as int],
                    self.piece(),
                    seq![c],
                    encode_utf8(seq![c]),
                    old(self).members()[j],
                );
            }
        }
    }

    /// Client `client` presses backspace; see `Client::backspace`.
    pub fn backspace(&mut self, client: usize) -> (r: (Option<char>, usize))
        requires
            old(self).wf(),
            client < old(self).members().len(),
            old(self).members()[client as int].mode() is Some,
        ensures
            final(self).wf(),
            final(self).others_kept(old(self), client as int),
            final(self).members()[client as int].mode() is Some,
            final(self).members()[client as int].mode()->0.deleted(),
            ({
                let t = old(self).text();
                let m = old(self).cursor_of(client as int);
                &&& r.0 matches Some(ch) ==> 1 <= m && ch == t[m - 1] && final(self).text()
                    == t.remove(m - 1)
                &&& r.0 is None ==> final(self).text() == t
                &&& final(self).cursor_of(client as int) == m - (if r.0 is Some { 1int } else { 0 })
                &&& old(self).typing(client as int) ==> r.0 is Some
            }),
            r.0 is Some <==> deletes_with_swaps(old(self).members()[client as int], old(self).piece(), 0),
            r.1 == backspace_swaps(old(self).members()[client as int], old(self).piece()),
            old(self).typing(client as int) ==> forall|j: int|
                0 <= j < old(self).members().len() && j != client && old(self).members()[j].mode()
                    is Some ==> #[trigger] final(self).cursor_of(j) == old(self).cursor_of(j) - (
                if old(self).cursor_of(j) >= old(self).cursor_of(client as int) {
                    1int
                } else {
                    0
                }),
    {
        let mut cl = self.take_client(client);
        let r = cl.backspace(&mut self.table);
        self.put_client(client, cl);
        proof {
            assert(self.members() =~= old(self).members().update(client as int, self.members()[client as int]));
            self.lemma_wf_after(old(self), client as int);
            if old(self).typing(client as int) {
                assert forall|j: int|
                    0 <= j < old(self).members().len() && j != client && old(self).members()[j].mode()
                        is Some implies #[trigger] self.cursor_of(j) == old(self).cursor_of(j) - (
                    if old(self).cursor_of(j) >= old(self).cursor_of(client as int) {
                        1int
                    } else {
                        0
                    }) by {
                    assert(self.members()[j] == old(self).members()[j]);
                    assert(old(self).members()[j].number() == j);
                    assert(old(self).members()[client as int].number() == client);
                    lemma_backspace_other_cursor(
                        old(self).members()[client as int],
                        old(self).piece(),
                        self.piece(),
                        old(self).members()[j],
                    );
                }
            }
        }
        r
    }

    /// Client `client` presses backspace as another copy of the document did, with `swaps`
    /// moves of empty pieces; see `Client::backspace_with_swaps`.
    pub fn backspace_with_swaps(&mut self, client: usize, swaps: usize) -> (r: Option<char>)
        requires
            old(self).wf(),
            client < old(self).members().len(),
            old(self).members()[client as int].mode() is Some,
        ensures
            final(self).wf(),
            final(self).others_kept(old(self), client as int),
            final(self).members()[client as int].mode() is Some,
            ({
                let t = old(self).text();
                let j = deleted_point(old(self).members()[client as int], old(self).piece(), swaps as int);
                &&& r matches Some(ch) ==> 0 <= j && ch == t[j] && final(self).text() == t.remove(j)
                &&& r is None ==> final(self).text() == t
            }),
            r is Some <==> deletes_with_swaps(
                old(self).members()[client as int],
                old(self).piece(),
                swaps as int,
            ),
            final(self).cursor_of(client as int) == old(self).cursor_of(client as int) - (if r is Some {
                1int
            } else {
                0
            }),
            swaps == 0 && old(self).typing(client as int) ==> forall|j: int|
                0 <= j < old(self).members().len() && j != client && old(self).members()[j].mode()
                    is Some ==> #[trigger] final(self).cursor_of(j) == old(self).cursor_of(j) - (
                if old(self).cursor_of(j) >= old(self).cursor_of(client as int) {
                    1int
                } else {
                    0
                }),
    {
        let mut cl = self.take_client(client);
        let r = cl.backspace_with_swaps(&mut self.table, swaps);
        self.put_client(client, cl);
        proof {
            assert(self.members() =~= old(self).members().update(client as int, self.members()[client as int]));
            self.lemma_wf_after(old(self), client as int);
            if swaps == 0 && old(self).typing(client as int) {
                assert forall|j: int|
                    0 <= j < old(self).members().len() && j != client && old(self).members()[j].mode()
                        is Some implies #[trigger] self.cursor_of(j) == old(self).cursor_of(j) - (
                    if old(self).cursor_of(j) >= old(self).cursor_of(client as int) {
                        1int
                    } else {
                        0
                    }) by {
                    assert(self.members()[j] == old(self).members()[j]);
                    assert(old(self).members()[j].number() == j);
                    assert(old(self).members()[client as int].number() == client);
                    lemma_backspace_other_cursor(
                        old(self).members()[client as int],
                        old(self).piece(),
                        self.piece(),
                        old(self).members()[j],
                    );
                }
            }
        }
        r
    }

    /// Client `client` leaves insert mode.
    pub fn exit_insert(&mut self, client: usize)
        requires
            old(self).wf(),
            client < old(self).members().len(),
        ensures
            final(self).wf(),
            final(self).others_kept(old(self), client as int),
            final(self).piece() == old(self).piece(),
            final(self).members()[client as int].mode() is None,
    {
        let mut cl = self.take_client(client);
        cl.exit_insert();
        self.put_client(client, cl);
        proof {
            assert forall|j: int| 0 <= j < self.members().len() implies (#[trigger] self.members()[j]).number() == j
                && self.members()[j].wf_in(self.piece()) by {
                if j != client {
                    assert(self.members()[j] == old(self).members()[j]);
                }
            }
        }
    }
}

impl Default for Text {
    fn default() -> (r: Self)
        ensures
            r.wf(),
            r.text() == Seq::<char>::empty(),
            r.members().len() == 0,
    {
        Text::new()
    }
}


/// Of two clients in insert mode, each edits a piece of its own, and the one whose cursor lies
/// further on edits the later piece.
pub proof fn lemma_cursor_order(t: Text, c: int, j: int)
    requires
        t.wf(),
        0 <= c < t.members().len(),
        0 <= j < t.members().len(),
        c != j,
        t.members()[c].mode() is Some,
        t.members()[j].mode() is Some,
    ensures
        t.members()[j].piece_index(t.piece()) != t.members()[c].piece_index(t.piece()),
        t.cursor_of(j) > t.cursor_of(c) ==> t.members()[j].piece_index(t.piece())
            > t.members()[c].piece_index(t.piece()),
        t.cursor_of(j) < t.cursor_of(c) ==> t.members()[j].piece_index(t.piece())
            < t.members()[c].piece_index(t.piece()),
{
    let piece = t.piece();
    let ps = piece.pieces();
    let ks = piece.piece_table.keys();
    piece.piece_table.lemma_lengths();
    let cl = t.members()[c];
    let o = t.members()[j];
    assert(cl.wf_in(piece) && o.wf_in(piece));
    assert(ks.contains(cl.mode()->0.key()));
    assert(ks.contains(o.mode()->0.key()));
    let pc = cl.piece_index(piece);
    let pj = o.piece_index(piece);
    assert(0 <= pc < ks.len() && 0 <= pj < ks.len());
    assert(ps[pc].buf == Some((c as usize, true)));
    assert(ps[pj].buf == Some((j as usize, true)));
    if pj < pc {
        lemma_concat_take_mono(ps, pj + 1, pc + 1);
    } else if pc < pj {
        lemma_concat_take_mono(ps, pc + 1, pj + 1);
    }
}

/// In a well-formed text, the cursor of a client in insert mode lies within the document.
pub proof fn lemma_cursor_in_text(t: Text, i: int)
    requires
        t.wf(),
        0 <= i < t.members().len(),
        t.members()[i].mode() is Some,
    ensures
        0 <= t.cursor_of(i) <= t.text().len(),
{
    let cl = t.members()[i];
    let ps = t.piece().pieces();
    t.piece().piece_table.lemma_lengths();
    assert(cl.wf_in(t.piece()));
    let p = cl.piece_index(t.piece());
    assert(0 <= p < ps.len());
    crate::piece::lemma_concat_split(ps, p + 1);
}

/// Typing a character and then pressing backspace, as the same client, leaves the document as it
/// was, and the backspace hands back the character typed.
pub proof fn law_backspace_undoes_push_char(
    t0: Text,
    t1: Text,
    t2: Text,
    i: int,
    c: char,
    r: Option<char>,
)
    requires
        t0.wf(),
        0 <= i < t0.members().len(),
        t0.members()[i].mode() is Some,
        t1.text() == t0.text().take(t0.cursor_of(i)) + seq![c] + t0.text().skip(t0.cursor_of(i)),
        t1.cursor_of(i) == t0.cursor_of(i) + 1,
        t1.typing(i),
        t1.typing(i) ==> r is Some,
        r matches Some(ch) ==> ch == t1.text()[t1.cursor_of(i) - 1] && t2.text() == t1.text().remove(
            t1.cursor_of(i) - 1,
        ),
    ensures
        t2.text() == t0.text(),
        r == Some(c),
{
    lemma_cursor_in_text(t0, i);
    let m = t0.cursor_of(i);
    assert(t2.text() =~= t0.text());
}

/// Text typed right after entering insert mode at `pos` lands where the cursor `pos` points in
/// the document.
pub proof fn law_typing_lands_at_cursor(
    t0: Text,
    t1: Text,
    t2: Text,
    i: int,
    pos: CursorPos,
    s: Seq<char>,
)
    requires
        t1.text() == t0.text(),
        t1.cursor_of(i) == insert_point(t0.text(), pos),
        t2.text() == t1.text().take(t1.cursor_of(i)) + s + t1.text().skip(t1.cursor_of(i)),
    ensures
        t2.text() == t0.text().take(insert_point(t0.text(), pos)) + s + t0.text().skip(
            insert_point(t0.text(), pos),
        ),
{
}

/// The position of the first element with key `k`.
pub open spec fn first_position(ks: Seq<usize>, k: usize) -> int {
    choose|i: int| 0 <= i < ks.len() && ks[i] == k && forall|j: int| 0 <= j < i ==> ks[j] != k
}

proof fn lemma_first_position(ks: Seq<usize>, k: usize, i: int)
    requires
        0 <= i < ks.len(),
        ks[i] == k,
        forall|j: int| 0 <= j < i ==> ks[j] != k,
    ensures
        first_position(ks, k) == i,
{
    let f = first_position(ks, k);
    assert(0 <= f < ks.len() && ks[f] == k && forall|j: int| 0 <= j < f ==> ks[j] != k);
    if f < i {
        assert(ks[f] != k);
    } else if f > i {
        assert(ks[i] != k);
    }
}

/// The encoding of a client's state: 1 and the start and end of the piece it is editing, when
/// it is in insert mode, else 0.
pub open spec fn client_state_encoding(cl: Client, piece: Piece) -> Seq<u8> {
    if cl.mode() is Some && piece.piece_table.keys().contains(cl.mode()->0.key()) {
        let e = piece.pieces()[first_position(piece.piece_table.keys(), cl.mode()->0.key())];
        seq![1u8] + be64(e.text.start() as u64) + be64(e.text.end() as u64)
    } else {
        seq![0u8]
    }
}

/// The piece marked `mk` is one of client `i`'s buffer that reads `start..end`.
pub open spec fn reads_client_range(
    mk: (Option<(usize, bool)>, usize, usize),
    i: usize,
    start: usize,
    end: usize,
) -> bool {
    &&& match mk.0 {
        Some((b, _)) => b == i,
        None => false,
    }
    &&& mk.1 == start
    &&& mk.2 == end
}

/// The piece at `k` is the first of the pieces marked `ms` that is one of client `i`'s buffer
/// reading `start..end`.
pub open spec fn first_client_range(
    ms: Seq<(Option<(usize, bool)>, usize, usize)>,
    k: int,
    i: usize,
    start: usize,
    end: usize,
) -> bool {
    &&& 0 <= k < ms.len()
    &&& reads_client_range(ms[k], i, start, end)
    &&& forall|j: int| 0 <= j < k ==> !reads_client_range(#[trigger] ms[j], i, start, end)
}

/// Of the pieces marked `ms`, over client buffers of the lengths `lens`, the first one of
/// client `i`'s buffer reading `start..end` is marked as edited by the client and reaches the
/// end of its buffer.
pub open spec fn editable_client_piece(
    ms: Seq<(Option<(usize, bool)>, usize, usize)>,
    lens: Seq<nat>,
    i: usize,
    start: usize,
    end: usize,
) -> bool {
    exists|k: int|
        first_client_range(ms, k, i, start, end) && #[trigger] ms[k].0 == Some((i, true)) && end
            == lens[i as int]
}

/// The front of `d` encodes a state of client `i`: 0, or 1 and the start and end of the piece
/// it edits, which `editable_client_piece` accepts.
pub open spec fn client_state_readable(
    d: Seq<u8>,
    ms: Seq<(Option<(usize, bool)>, usize, usize)>,
    lens: Seq<nat>,
    i: usize,
) -> bool {
    let start = from_be64(d.subrange(1, 9));
    let end = from_be64(d.subrange(9, 17));
    &&& 1 <= d.len()
    &&& (d[0] == 0 || {
        &&& d[0] == 1
        &&& 17 <= d.len()
        &&& start <= usize::MAX
        &&& end <= usize::MAX
        &&& editable_client_piece(ms, lens, i, start as usize, end as usize)
    })
}

/// The length of the client state encoded at the front of `d`.
pub open spec fn state_len(d: Seq<u8>) -> int {
    if d[0] == 0 {
        1
    } else {
        17
    }
}

/// The states of clients `i` up to `count` encoded in `d` from `at` on are all readable against
/// the pieces marked `ms` and client buffers of the lengths `lens`.
pub open spec fn states_from(
    d: Seq<u8>,
    at: int,
    i: nat,
    count: nat,
    ms: Seq<(Option<(usize, bool)>, usize, usize)>,
    lens: Seq<nat>,
) -> bool
    decreases count - i,
{
    if i >= count {
        true
    } else {
        let rest = d.subrange(at, d.len() as int);
        &&& 0 <= at <= d.len()
        &&& client_state_readable(rest, ms, lens, i as usize)
        &&& states_from(d, at + state_len(rest), i + 1, count, ms, lens)
    }
}

/// `d` starts with the encoding of a text: the length of the table's encoding, a readable
/// table of that length with at least one piece, the number of clients, equal to the number of
/// client buffers, and that many readable client states.
pub open spec fn text_readable(d: Seq<u8>) -> bool {
    let pd = d.subrange(8, d.len() as int);
    let n = piece_end(pd);
    let count = from_be64(d.subrange(8 + n, 16 + n));
    &&& 8 <= d.len()
    &&& piece_readable(pd)
    &&& from_be64(d.subrange(0, 8)) == n
    &&& 16 + n <= d.len()
    &&& count == piece_client_lens(pd).len()
    &&& piece_marks(pd).len() >= 1
    &&& states_from(d, 16 + n, 0, count as nat, piece_marks(pd), piece_client_lens(pd))
}

/// The encodings of the clients' states, one after the other.
pub open spec fn clients_state_encoding(cs: Seq<Client>, piece: Piece) -> Seq<u8>
    decreases cs.len(),
{
    if cs.len() == 0 {
        Seq::empty()
    } else {
        clients_state_encoding(cs.drop_last(), piece) + client_state_encoding(cs.last(), piece)
    }
}

impl Serialize for Text {
    open spec fn encoding(&self) -> Seq<u8> {
        let pe = piece_encoding(self.piece());
        be64(pe.len() as u64) + pe + be64(self.members().len() as u64) + clients_state_encoding(
            self.members(),
            self.piece(),
        )
    }

    #[verifier::spinoff_prover]
    fn serialize(&self) -> (r: Vec<u8>) {
        let mut r = Vec::new();
        let pe = self.table.serialize();
        push_u64(&mut r, pe.len() as u64);
        push_all(&mut r, pe.as_slice());
        push_u64(&mut r, self.clients.len() as u64);
        let ghost head = r@;
        let ghost cs = self.members();
        let ghost piece = self.piece();
        proof {
            piece.piece_table.lemma_lengths();
        }
        let mut i: usize = 0;
        while i < self.clients.len()
            invariant
                i <= cs.len(),
                cs == self.members(),
                piece == self.piece(),
                piece.pieces().len() == piece.piece_table.keys().len(),
                piece.pieces().len() == piece.piece_table.elems().len(),
                r@ == head + clients_state_encoding(cs.take(i as int), piece),
            decreases cs.len() - i,
        {
            let cl = &self.clients[i];
            match &cl.data {
                Some(d) => match self.table.piece_table.position_of(d.slice) {
                    Some(p) => {
                        let e = self.table.piece_table.get(p).read();
                        proof {
                            lemma_first_position(piece.piece_table.keys(), d.slice, p as int);
                            assert(piece.piece_table.keys()[p as int] == d.slice);
                            assert(*e == piece.pieces()[p as int]);
                        }
                        r.push(1u8);
                        push_u64(&mut r, e.text.start() as u64);
                        push_u64(&mut r, e.text.end() as u64);
                    },
                    None => r.push(0u8),
                },
                None => r.push(0u8),
            }
            proof {
                assert(cs.take(i + 1).drop_last() =~= cs.take(i as int));
                assert(cs[i as int] == *cl);
                assert(r@ =~= head + clients_state_encoding(cs.take(i + 1), piece));
            }
            i = i + 1;
        }
        proof {
            assert(cs.take(i as int) =~= cs);
        }
        r
    }
}

impl Deserialize for Text {
    /// Decodes a text: the length of the table's encoding, the table, the number of clients,
    /// then each client's state. A client in insert mode names the start and end of the piece it
    /// is editing; that piece must be one of its buffer's, marked as edited by it and reaching
    /// the end of its buffer, and there must be as many clients as client buffers and at least
    /// one piece, or the data is refused.
    #[verifier::rlimit(80)]
    #[verifier::spinoff_prover]
    fn deserialize(data: &[u8]) -> (r: Option<(Self, usize)>)
        ensures
            r is Some <==> text_readable(data@),
            r matches Some((t, n)) ==> t.wf(),
    {
        let len = match read_u64(data, 0) {
            Some(v) => v,
            None => return None,
        };
        let ghost pd = data@.subrange(8, data@.len() as int);
        let (table, n) = match Piece::deserialize(&data[8..data.len()]) {
            Some(x) => x,
            None => return None,
        };
        let ghost ms = piece_marks(pd);
        let ghost lens = piece_client_lens(pd);
        if len != n as u64 {
            return None;
        }
        let count = match read_u64(data, 8 + n) {
            Some(v) => v,
            None => return None,
        };
        proof {
            table.piece_table.lemma_lengths();
            assert(table_marks(table).len() == table.pieces().len());
            assert(table_lens(table).len() == table.buffers.clients@.len());
        }
        if count != table.buffers.clients.len() as u64 || table.piece_table.len() == 0 {
            return None;
        }
        proof {
            assert(text_readable(data@) <==> states_from(data@, 16 + n, 0, count as nat, ms, lens));
        }
        let ghost head = data@.take(16 + n);
        proof {
            crate::btep::lemma_from_be64(data@.subrange(0, 8));
            crate::btep::lemma_from_be64(data@.subrange(8 + n, 16 + n));
            assert(head =~= data@.subrange(0, 8) + data@.subrange(8, 8 + n) + data@.subrange(8 + n, 16 + n));
        }
        let mut at: usize = 16 + n;
        let mut clients: Vec<Client> = Vec::new();
        let mut i: usize = 0;
        while (i as u64) < count
            invariant
                table.wf(),
                table.pieces().len() >= 1,
                count == table.buffers.clients@.len(),
                count <= usize::MAX,
                i <= count,
                clients@.len() == i,
                head.len() <= at <= data@.len(),
                head == data@.take(head.len() as int),
                data@.subrange(head.len() as int, at as int) == clients_state_encoding(clients@, table),
                forall|j: int| 0 <= j < i ==> (#[trigger] clients@[j]).number() == j
                    && clients@[j].wf_in(table),
                ms == table_marks(table),
                lens == table_lens(table),
                text_readable(data@) <==> states_from(data@, at as int, i as nat, count as nat, ms, lens),
            decreases count - i,
        {
            let ghost rest = data@.subrange(at as int, data@.len() as int);
            let (cl, m) = match read_client_state(&data[at..data.len()], &table, i) {
                Some(x) => x,
                None => return None,
            };
            let ghost before = clients@;
            proof {
                assert(before.push(cl).drop_last() =~= before);
                assert(data@.subrange(head.len() as int, at + m) =~= data@.subrange(
                    head.len() as int,
                    at as int,
                ) + data@.subrange(at as int, at + m));
            }
            clients.push(cl);
            at = at + m;
            assert(i < count);
            i = i + 1;
        }
        let t = Text { table, clients };
        proof {
            assert(data@.take(at as int) =~= head + data@.subrange(head.len() as int, at as int));
            assert(data@.take(at as int) =~= t.encoding());
        }
        Some((t, at))
    }
}


/// Reads the state of client `i` off the front of `data`: 0 when it is not in insert mode, or 1
/// and the start and end of the piece it is editing.
fn read_client_state(data: &[u8], table: &Piece, i: usize) -> (r: Option<(Client, usize)>)
    requires
        table.wf(),
        i < table.buffers.clients@.len(),
    ensures
        r is Some <==> client_state_readable(data@, table_marks(*table), table_lens(*table), i),
        r matches Some((cl, m)) ==> {
            &&& m <= data@.len()
            &&& m == state_len(data@)
            &&& cl.number() == i
            &&& cl.wf_in(*table)
            &&& data@.take(m as int) == client_state_encoding(cl, *table)
        },
{
    if data.len() == 0 {
        return None;
    }
    let tag = data[0];
    if tag == 0 {
        let cl = Client::new(i);
        proof {
            assert(data@.take(1) =~= client_state_encoding(cl, *table));
        }
        return Some((cl, 1));
    }
    if tag != 1 {
        return None;
    }
    let start = match read_usize(data, 1) {
        Some(v) => v,
        None => return None,
    };
    let end = match read_usize(data, 9) {
        Some(v) => v,
        None => return None,
    };
    let found = match find_client_piece(table, i, start, end) {
        Some(k) => k,
        None => return None,
    };
    proof {
        table.piece_table.lemma_lengths();
    }
    let key = table.piece_table.get(found).get_key();
    let cl = Client {
        bufnr: i,
        data: Some(Insertdata { slice: key, pos: CursorPos { row: 0, col: 0 }, has_deleted: false }),
    };
    proof {
        let ks = table.piece_table.keys();
        assert(ks[found as int] == key);
        lemma_key_position(ks, key, found as int);
        assert forall|j: int| 0 <= j < found implies ks[j] != key by {
            assert(ks[j] != ks[found as int]);
        }
        lemma_first_position(ks, key, found as int);
        assert(ks.contains(key));
        crate::btep::lemma_from_be64(data@.subrange(1, 9));
        crate::btep::lemma_from_be64(data@.subrange(9, 17));
        assert(data@.take(17) =~= client_state_encoding(cl, *table));
    }
    Some((cl, 17))
}

/// The position of the first piece of client `i`'s buffer reading `start..end`, when that piece
/// is marked as edited by the client and reaches the end of its buffer.
fn find_client_piece(table: &Piece, i: usize, start: usize, end: usize) -> (r: Option<usize>)
    requires
        table.wf(),
        i < table.buffers.clients@.len(),
    ensures
        r is Some <==> editable_client_piece(
            table_marks(*table),
            table_lens(*table),
            i,
            start,
            end,
        ),
        r matches Some(k) ==> {
            &&& first_client_range(table_marks(*table), k as int, i, start, end)
            &&& table.pieces()[k as int].buf == Some((i, true))
            &&& end == table.buffers.clients@[i as int].1@.len()
        },
{
    let elems = table.piece_table.elements();
    let ghost ps = table.pieces();
    let ghost ms = table_marks(*table);
    proof {
        table.piece_table.lemma_lengths();
    }
    let mut k: usize = 0;
    while k < elems.len()
        invariant
            k <= elems@.len(),
            elems@ == table.piece_table.elems(),
            elems@.len() == ps.len(),
            ps == table.pieces(),
            ms == table_marks(*table),
            ms.len() == ps.len(),
            i < table.buffers.clients@.len(),
            forall|j: int| 0 <= j < k ==> !reads_client_range(#[trigger] ms[j], i, start, end),
        decreases elems@.len() - k,
    {
        let e = elems[k].read();
        proof {
            assert(*e == ps[k as int]);
            assert(ms[k as int] == piece_mark(ps[k as int]));
        }
        let hit = match e.buf {
            Some((b, _)) => b == i && e.text.start() == start && e.text.end() == end,
            None => false,
        };
        if hit {
            proof {
                assert(first_client_range(ms, k as int, i, start, end));
                assert forall|k2: int| #[trigger] first_client_range(ms, k2, i, start, end)
                    implies k2 == k by {
                    if k2 < k {
                        assert(!reads_client_range(ms[k2], i, start, end));
                    } else if k2 > k {
                        assert(!reads_client_range(ms[k as int], i, start, end));
                    }
                }
            }
            proof {
                assert(table_lens(*table)[i as int] == table.buffers.clients@[i as int].1@.len());
            }
            if e.buf == Some((i, true)) && end == table.buffers.clients[i].1.len() {
                return Some(k);
            }
            return None;
        }
        k = k + 1;
    }
    proof {
        assert forall|k2: int| !first_client_range(ms, k2, i, start, end) by {
            if 0 <= k2 < ms.len() {
                assert(!reads_client_range(ms[k2], i, start, end));
            }
        }
    }
    None
}

/// Each client of `t` in insert mode can be found again from the encoding: it typed since it
/// last deleted, and its piece is the first of its buffer's pieces reading that piece's range.
pub open spec fn clients_findable(t: Text) -> bool {
    forall|i: int|
        0 <= i < t.members().len() && (#[trigger] t.members()[i]).mode() is Some ==> {
            let ms = table_marks(t.piece());
            let k = t.members()[i].piece_index(t.piece());
            &&& !t.members()[i].mode()->0.deleted()
            &&& forall|j: int|
                0 <= j < k ==> !reads_client_range(#[trigger] ms[j], i as usize, ms[k].1, ms[k].2)
        }
}

/// The encodings of the first `i` client states begin those of the first `j`.
#[verifier::spinoff_prover]
proof fn lemma_states_prefix(cs: Seq<Client>, piece: Piece, i: int, j: int)
    requires
        0 <= i <= j <= cs.len(),
    ensures
        clients_state_encoding(cs.take(i), piece).len() <= clients_state_encoding(cs.take(j), piece).len(),
        clients_state_encoding(cs.take(j), piece).take(
            clients_state_encoding(cs.take(i), piece).len() as int,
        ) == clients_state_encoding(cs.take(i), piece),
    decreases j - i,
{
    let e = clients_state_encoding(cs.take(i), piece);
    if i < j {
        lemma_states_prefix(cs, piece, i, j - 1);
        let a = clients_state_encoding(cs.take(j - 1), piece);
        assert(cs.take(j).drop_last() =~= cs.take(j - 1));
        assert(clients_state_encoding(cs.take(j), piece) == a + client_state_encoding(cs[j - 1], piece));
        assert(clients_state_encoding(cs.take(j), piece).take(e.len() as int) =~= a.take(e.len() as int));
    } else {
        assert(clients_state_encoding(cs.take(j), piece).take(e.len() as int) =~= e);
    }
}

/// The state of client `i` of `t` is read back from its encoding at the front of `d`.
proof fn lemma_state_readable(t: Text, i: int, d: Seq<u8>)
    requires
        t.wf(),
        clients_findable(t),
        0 <= i < t.members().len(),
        client_state_encoding(t.members()[i], t.piece()).len() <= d.len(),
        d.take(client_state_encoding(t.members()[i], t.piece()).len() as int) == client_state_encoding(
            t.members()[i],
            t.piece(),
        ),
    ensures
        client_state_readable(d, table_marks(t.piece()), table_lens(t.piece()), i as usize),
        state_len(d) == client_state_encoding(t.members()[i], t.piece()).len(),
{
    let piece = t.piece();
    let cl = t.members()[i];
    let enc = client_state_encoding(cl, piece);
    let ks = piece.piece_table.keys();
    let ps = piece.pieces();
    piece.piece_table.lemma_lengths();
    assert(cl.number() == i && cl.wf_in(piece));
    assert(d.take(enc.len() as int)[0] == d[0]);
    if cl.mode() is Some {
        let key = cl.mode()->0.key();
        assert(ks.contains(key));
        let kp = cl.piece_index(piece);
        assert(0 <= kp < ks.len() && ks[kp] == key);
        assert forall|j: int| 0 <= j < kp implies ks[j] != key by {
            assert(ks[j] != ks[kp]);
        }
        lemma_first_position(ks, key, kp);
        let e = ps[kp];
        crate::btep::lemma_be64(e.text.start() as u64);
        crate::btep::lemma_be64(e.text.end() as u64);
        assert(d.subrange(1, 9) =~= d.take(17).subrange(1, 9));
        assert(d.take(17).subrange(1, 9) =~= be64(e.text.start() as u64));
        assert(d.subrange(9, 17) =~= d.take(17).subrange(9, 17));
        assert(d.take(17).subrange(9, 17) =~= be64(e.text.end() as u64));
        let ms = table_marks(piece);
        assert(ms[kp] == piece_mark(e));
        assert(first_client_range(ms, kp, i as usize, e.text.start(), e.text.end()));
        assert(table_lens(piece)[i] == piece.buffers.clients@[i].1@.len());
        assert(ms[kp].0 == Some((i as usize, true)));
    }
}

/// Reading back the states of the clients of `t`, whose encodings start at `h` in `d`: from
/// client `i` on, all are readable.
proof fn lemma_states_parse(t: Text, d: Seq<u8>, h: int, i: int)
    requires
        t.wf(),
        clients_findable(t),
        0 <= h,
        0 <= i <= t.members().len(),
        d.len() >= h + clients_state_encoding(t.members(), t.piece()).len(),
        d.subrange(h, h + clients_state_encoding(t.members(), t.piece()).len())
            == clients_state_encoding(t.members(), t.piece()),
    ensures
        states_from(
            d,
            h + clients_state_encoding(t.members().take(i), t.piece()).len(),
            i as nat,
            t.members().len(),
            table_marks(t.piece()),
            table_lens(t.piece()),
        ),
    decreases t.members().len() - i,
{
    let cs = t.members();
    let piece = t.piece();
    let n = cs.len() as int;
    if i < n {
        let full = clients_state_encoding(cs, piece);
        assert(cs.take(n) =~= cs);
        let ei = clients_state_encoding(cs.take(i), piece);
        assert(cs.take(i + 1).drop_last() =~= cs.take(i));
        let enc = client_state_encoding(cs[i], piece);
        let ei1 = clients_state_encoding(cs.take(i + 1), piece);
        assert(ei1 == ei + enc);
        lemma_states_prefix(cs, piece, i + 1, n);
        let pos = h + ei.len();
        let rest = d.subrange(pos, d.len() as int);
        assert(rest.take(enc.len() as int) =~= enc) by {
            assert forall|q: int| 0 <= q < enc.len() implies #[trigger] rest.take(enc.len() as int)[q]
                == enc[q] by {
                assert(full.take(ei1.len() as int)[ei.len() + q] == full[ei.len() + q]);
                assert(d.subrange(h, h + full.len())[ei.len() + q] == d[h + ei.len() + q]);
                assert(ei1[ei.len() + q] == enc[q]);
            }
        }
        lemma_state_readable(t, i, rest);
        lemma_states_parse(t, d, h, i + 1);
    }
}

/// Where the parts of a text's encoding lie: the length of the table's encoding, the table's
/// encoding, the number of clients and their states.
proof fn lemma_text_layout(pe: Seq<u8>, nc: u64, cse: Seq<u8>, rest: Seq<u8>)
    requires
        pe.len() <= u64::MAX,
    ensures
        ({
            let d = be64(pe.len() as u64) + pe + be64(nc) + cse + rest;
            let n = pe.len() as int;
            &&& d.subrange(8, d.len() as int) == pe + (be64(nc) + cse + rest)
            &&& from_be64(d.subrange(0, 8)) == n
            &&& 16 + n <= d.len()
            &&& from_be64(d.subrange(8 + n, 16 + n)) == nc
            &&& d.len() >= 16 + n + cse.len()
            &&& d.subrange(16 + n, 16 + n + cse.len()) == cse
        }),
{
    let d = be64(pe.len() as u64) + pe + be64(nc) + cse + rest;
    let n = pe.len() as int;
    crate::btep::lemma_be64(pe.len() as u64);
    crate::btep::lemma_be64(nc);
    assert(d.subrange(8, d.len() as int) =~= pe + (be64(nc) + cse + rest));
    assert(d.subrange(0, 8) =~= be64(pe.len() as u64));
    assert(d.subrange(8 + n, 16 + n) =~= be64(nc));
    assert(d.subrange(16 + n, 16 + n + cse.len()) =~= cse);
}

/// Reading back the states of all the clients of `t`, whose encodings start at `h` in `d`.
proof fn lemma_states_all(t: Text, d: Seq<u8>, h: int)
    requires
        t.wf(),
        clients_findable(t),
        0 <= h,
        d.len() >= h + clients_state_encoding(t.members(), t.piece()).len(),
        d.subrange(h, h + clients_state_encoding(t.members(), t.piece()).len())
            == clients_state_encoding(t.members(), t.piece()),
    ensures
        states_from(d, h, 0, t.members().len(), table_marks(t.piece()), table_lens(t.piece())),
{
    lemma_states_parse(t, d, h, 0);
    assert(t.members().take(0) =~= Seq::<Client>::empty());
    assert(clients_state_encoding(t.members().take(0), t.piece()).len() == 0);
}

/// A text is readable from `d` when its parts are.
proof fn lemma_text_readable_parts(
    d: Seq<u8>,
    pd: Seq<u8>,
    n: int,
    nc: nat,
    ms: Seq<(Option<(usize, bool)>, usize, usize)>,
    lens: Seq<nat>,
)
    requires
        8 <= d.len(),
        pd == d.subrange(8, d.len() as int),
        piece_readable(pd),
        piece_end(pd) == n,
        piece_marks(pd) == ms,
        piece_client_lens(pd) == lens,
        from_be64(d.subrange(0, 8)) == n,
        16 + n <= d.len(),
        from_be64(d.subrange(8 + n, 16 + n)) == nc,
        lens.len() == nc,
        ms.len() >= 1,
        states_from(d, 16 + n, 0, nc, ms, lens),
    ensures
        text_readable(d),
{
}

/// Every well-formed text whose clients in insert mode can be found again, with buffers short
/// enough for a buffer and countable pieces, is read back from its encoding, whatever follows
/// it.
#[verifier::spinoff_prover]
#[verifier::rlimit(100)]
pub proof fn law_text_encoding_parses(t: Text, rest: Seq<u8>)
    requires
        t.wf(),
        clients_findable(t),
        t.piece().buffers.original.1@.len() <= isize::MAX,
        forall|i: int|
            0 <= i < t.piece().buffers.clients@.len() ==> (#[trigger] t.piece().buffers.clients@[i]).1@.len()
                <= isize::MAX,
        t.piece().pieces().len() <= usize::MAX,
        t.members().len() <= usize::MAX,
        piece_encoding(t.piece()).len() <= u64::MAX,
    ensures
        text_readable(t.encoding() + rest),
{
    let p = t.piece();
    let pe = piece_encoding(p);
    let nc = t.members().len();
    let cse = clients_state_encoding(t.members(), p);
    let d = t.encoding() + rest;
    let n = pe.len() as int;
    assert(t.encoding() == be64(pe.len() as u64) + pe + be64(nc as u64) + cse);
    lemma_text_layout(pe, nc as u64, cse, rest);
    let pd = d.subrange(8, d.len() as int);
    crate::transfer::law_piece_encoding_parses(p, be64(nc as u64) + cse + rest);
    p.piece_table.lemma_lengths();
    lemma_states_all(t, d, 16 + n);
    assert(table_lens(p).len() == p.buffers.clients@.len());
    assert(table_marks(p).len() == p.pieces().len());
    let x = be64(nc as u64) + cse + rest;
    lemma_text_readable_parts(d, pe + x, n, nc as nat, table_marks(p), table_lens(p));
}


/// Replaying a backspace on another copy of the document, with as many moves of empty pieces as
/// the backspace made, deletes exactly when the backspace did, and the same character: the one
/// right before the client's cursor.
pub proof fn law_backspace_replays(t: Text, i: int)
    requires
        t.wf(),
        0 <= i < t.members().len(),
        t.members()[i].mode() is Some,
    ensures
        ({
            let cl = t.members()[i];
            let s = backspace_swaps(cl, t.piece());
            &&& s >= 0
            &&& deletes_with_swaps(cl, t.piece(), s) == deletes_with_swaps(cl, t.piece(), 0)
            &&& deleted_point(cl, t.piece(), s) == t.cursor_of(i) - 1
        }),
{
    let cl = t.members()[i];
    let piece = t.piece();
    let ps = piece.pieces();
    piece.piece_table.lemma_lengths();
    piece.lemma_slices();
    assert(cl.wf_in(piece));
    let p = cl.piece_index(piece);
    assert(0 <= p < ps.len());
    lemma_last_nonempty_before(ps, p);
    let s = backspace_swaps(cl, piece);
    if s > 0 {
        let a = last_nonempty_before(ps, p) + 1;
        assert(swap_start(ps, p, s) == a);
        assert(swap_cursor(ps, p, s) == a);
        let rot = rotate(ps, a, p);
        assert(rot.take(a) =~= ps.take(a));
        lemma_prefix_last_nonempty(rot, ps, a);
        assert(last_nonempty_before(rot, a) == a - 1);
        if a >= 1 {
            assert(rot[a - 1] == ps[a - 1]);
        }
        let mid = ps.subrange(a, p + 1);
        assert(ps.take(p + 1) =~= ps.take(a) + mid);
        crate::piece::lemma_concat_append(ps.take(a), mid);
        assert forall|k: int| 0 <= k < mid.len() implies is_empty_piece(#[trigger] mid[k])
            && mid[k].text.well_formed() by {
            assert(mid[k] == ps[a + k]);
        }
        crate::piece::lemma_concat_empty(mid);
        assert(concat_text(ps.take(p + 1)) =~= concat_text(ps.take(a)));
    }
}

/// The last piece with text before `a` depends only on the pieces before `a`.
proof fn lemma_prefix_last_nonempty(ps: Seq<TableElem>, qs: Seq<TableElem>, a: int)
    requires
        0 <= a <= ps.len(),
        a <= qs.len(),
        ps.take(a) == qs.take(a),
    ensures
        last_nonempty_before(ps, a) == last_nonempty_before(qs, a),
    decreases a,
{
    if a > 0 {
        assert(ps[a - 1] == ps.take(a)[a - 1]);
        assert(qs[a - 1] == qs.take(a)[a - 1]);
        assert(ps.take(a - 1) =~= ps.take(a).take(a - 1));
        assert(qs.take(a - 1) =~= qs.take(a).take(a - 1));
        lemma_prefix_last_nonempty(ps, qs, a - 1);
    }
}

} // verus!
