//! How a piece table travels between server and clients: the counter and bytes of the original
//! buffer; for each client buffer a separator byte `0xfe` (no UTF-8 text holds it), its counter
//! and its bytes; a separator byte `0xff`; then the number of pieces and, for each piece, its
//! buffer marking, id, start and end.
use vstd::prelude::*;
use vstd::string::StringSliceAdditionalSpecFns;
use vstd::utf8::*;

use crate::append_only_str::{AppendOnlyStr, Span};
use crate::btep::{be64, from_be64, push_all, push_u64, read_usize, Deserialize, Serialize};
use crate::bufread::{lemma_no_stop_inside, lemma_text_end_unique, read_valid_str, stop_byte, text_ends_at};
use crate::piece::{piece_in_buffers, Buffers, Piece, TableElem};
use crate::table::{InnerTable, Table, TableState};
use crate::utils::AutoIncrementing;

verus! {

broadcast use vstd::seq::group_seq_axioms;

/// The encoding of a piece's buffer marking: 0 for the original buffer, else 1 (not being
/// edited) or 2 (being edited) followed by the buffer's number.
pub open spec fn buf_encoding(buf: Option<(usize, bool)>) -> Seq<u8> {
    match buf {
        None => seq![0u8],
        Some((b, false)) => seq![1u8] + be64(b as u64),
        Some((b, true)) => seq![2u8] + be64(b as u64),
    }
}

/// The encoding of a piece: its buffer marking, id, start and end.
pub open spec fn elem_encoding(e: TableElem) -> Seq<u8> {
    buf_encoding(e.buf) + be64(e.id as u64) + be64(e.text.start() as u64) + be64(
        e.text.end() as u64,
    )
}

/// The encodings of the pieces, one after the other.
pub open spec fn elems_encoding(ps: Seq<TableElem>) -> Seq<u8>
    decreases ps.len(),
{
    if ps.len() == 0 {
        Seq::empty()
    } else {
        elems_encoding(ps.drop_last()) + elem_encoding(ps.last())
    }
}

/// The encodings of the client buffers: each the separator `0xfe`, its counter and its bytes.
pub open spec fn clients_encoding(cs: Seq<(AutoIncrementing, AppendOnlyStr)>) -> Seq<u8>
    decreases cs.len(),
{
    if cs.len() == 0 {
        Seq::empty()
    } else {
        clients_encoding(cs.drop_last()) + seq![0xfeu8] + be64(cs.last().0.value() as u64)
            + cs.last().1@
    }
}

/// The encoding of the buffers: the original's counter and bytes, then the client buffers.
pub open spec fn buffers_encoding(b: Buffers) -> Seq<u8> {
    be64(b.original.0.value() as u64) + b.original.1@ + clients_encoding(b.clients@)
}

/// The encoding of a piece table: its buffers, the separator `0xff`, the number of pieces and
/// the pieces.
pub open spec fn piece_encoding(p: Piece) -> Seq<u8> {
    buffers_encoding(p.buffers) + seq![0xffu8] + be64(p.pieces().len() as u64) + elems_encoding(
        p.pieces(),
    )
}

/// Where the fields of the piece encoded at the front of `d` start: after the tag byte of the
/// original buffer, or after the tag and the number of a client buffer.
pub open spec fn elem_fields_at(d: Seq<u8>) -> int {
    if d[0] == 0 {
        1
    } else {
        9
    }
}

/// The bytes of the client buffers.
pub open spec fn client_bytes(cs: Seq<(AutoIncrementing, AppendOnlyStr)>) -> Seq<Seq<u8>> {
    cs.map_values(|c: (AutoIncrementing, AppendOnlyStr)| c.1@)
}

/// The front of `d` encodes a piece of the original buffer `orig` or of one of the client
/// buffers `cls`: a known tag, a buffer that exists, numbers that fit a `usize`, and a range of
/// the buffer between two character boundaries.
pub open spec fn elem_readable(d: Seq<u8>, orig: Seq<u8>, cls: Seq<Seq<u8>>) -> bool {
    let at = elem_fields_at(d);
    let start = from_be64(d.subrange(at + 8, at + 16));
    let end = from_be64(d.subrange(at + 16, at + 24));
    let source = if d[0] == 0 {
        orig
    } else {
        cls[from_be64(d.subrange(1, 9)) as int]
    };
    &&& 1 <= d.len()
    &&& d[0] <= 2
    &&& at + 24 <= d.len()
    &&& (d[0] != 0 ==> from_be64(d.subrange(1, 9)) < cls.len())
    &&& from_be64(d.subrange(at, at + 8)) <= usize::MAX
    &&& start <= usize::MAX
    &&& end <= usize::MAX
    &&& start <= end <= source.len()
    &&& is_char_boundary(source, start as int)
    &&& is_char_boundary(source, end as int)
}

/// A buffer's text at the front of `d` ends at a separator, and is short enough for a buffer.
pub open spec fn buffer_readable(d: Seq<u8>) -> bool {
    exists|m: int| text_ends_at(d, m) && m <= isize::MAX
}

/// Where that text ends.
pub open spec fn buffer_end(d: Seq<u8>) -> int {
    choose|m: int| text_ends_at(d, m) && m <= isize::MAX
}

/// Reading client buffers on from `at`, right after the separator `sep`, with the bytes `acc`
/// of the client buffers read so far: the bytes of all of them and the position after the
/// separator `0xff` that ends them, or `None` when the data is refused.
pub open spec fn clients_from(d: Seq<u8>, at: int, sep: u8, acc: Seq<Seq<u8>>) -> Option<
    (Seq<Seq<u8>>, int),
>
    decreases d.len() - at,
{
    if sep == 0xff {
        Some((acc, at))
    } else if sep == 0xfe && 0 <= at && at + 8 <= d.len() && from_be64(d.subrange(at, at + 8))
        <= usize::MAX && buffer_readable(d.subrange(at + 8, d.len() as int)) {
        let rest = d.subrange(at + 8, d.len() as int);
        let m = buffer_end(rest);
        clients_from(d, at + 9 + m, rest[m], acc.push(rest.take(m)))
    } else {
        None
    }
}

/// The `left` pieces encoded in `d` from `at` on are all readable against the original buffer
/// `orig` and the client buffers `cls`.
pub open spec fn elems_from(
    d: Seq<u8>,
    at: int,
    left: nat,
    orig: Seq<u8>,
    cls: Seq<Seq<u8>>,
) -> bool
    decreases left,
{
    if left == 0 {
        true
    } else {
        let rest = d.subrange(at, d.len() as int);
        &&& 0 <= at <= d.len()
        &&& elem_readable(rest, orig, cls)
        &&& elems_from(d, at + elem_fields_at(rest) + 24, (left - 1) as nat, orig, cls)
    }
}

/// `d` starts with the encoding of a piece table: the original buffer's counter, fitting a
/// `usize`, and text; the client buffers, ended by `0xff`; a number of pieces that fits a
/// `usize`; and that many readable pieces.
pub open spec fn piece_readable(d: Seq<u8>) -> bool {
    let rest = d.subrange(8, d.len() as int);
    let m = buffer_end(rest);
    &&& 8 <= d.len()
    &&& from_be64(d.subrange(0, 8)) <= usize::MAX
    &&& buffer_readable(rest)
    &&& piece_clients(d) matches Some((cls, at))
    &&& at + 8 <= d.len()
    &&& from_be64(d.subrange(at, at + 8)) <= usize::MAX
    &&& elems_from(d, at + 8, from_be64(d.subrange(at, at + 8)) as nat, rest.take(m), cls)
}

/// The buffer marking, start and end of the piece `e`.
pub open spec fn piece_mark(e: TableElem) -> (Option<(usize, bool)>, usize, usize) {
    (e.buf, e.text.start(), e.text.end())
}

/// The buffer markings, starts and ends of the pieces of `table`.
pub open spec fn table_marks(table: Piece) -> Seq<(Option<(usize, bool)>, usize, usize)> {
    table.pieces().map_values(|e: TableElem| piece_mark(e))
}

/// The lengths of the client buffers `cs`.
pub open spec fn table_lens_of(cs: Seq<(AutoIncrementing, AppendOnlyStr)>) -> Seq<nat> {
    cs.map_values(|c: (AutoIncrementing, AppendOnlyStr)| c.1@.len())
}

/// The lengths of the client buffers of `table`.
pub open spec fn table_lens(table: Piece) -> Seq<nat> {
    table_lens_of(table.buffers.clients@)
}

/// The buffer marking, start and end that the front of `d` encodes for a piece.
pub open spec fn elem_mark(d: Seq<u8>) -> (Option<(usize, bool)>, usize, usize) {
    let at = elem_fields_at(d);
    let buf = if d[0] == 0 {
        None
    } else {
        Some((from_be64(d.subrange(1, 9)) as usize, d[0] == 2))
    };
    (
        buf,
        from_be64(d.subrange(at + 8, at + 16)) as usize,
        from_be64(d.subrange(at + 16, at + 24)) as usize,
    )
}

/// The marks of the `left` pieces encoded in `d` from `at` on.
pub open spec fn elems_marks(d: Seq<u8>, at: int, left: nat) -> Seq<
    (Option<(usize, bool)>, usize, usize),
>
    decreases left,
{
    if left == 0 {
        Seq::empty()
    } else {
        let rest = d.subrange(at, d.len() as int);
        seq![elem_mark(rest)] + elems_marks(d, at + elem_fields_at(rest) + 24, (left - 1) as nat)
    }
}

/// Where the `left` pieces encoded in `d` from `at` on end.
pub open spec fn elems_end(d: Seq<u8>, at: int, left: nat) -> int
    decreases left,
{
    if left == 0 {
        at
    } else {
        let rest = d.subrange(at, d.len() as int);
        elems_end(d, at + elem_fields_at(rest) + 24, (left - 1) as nat)
    }
}

/// The bytes of the client buffers of the piece table encoded in `d`, and where they end.
pub open spec fn piece_clients(d: Seq<u8>) -> Option<(Seq<Seq<u8>>, int)> {
    let rest = d.subrange(8, d.len() as int);
    let m = buffer_end(rest);
    clients_from(d, 9 + m, rest[m], Seq::empty())
}

/// Where the pieces of the piece table encoded in `d` start.
pub open spec fn piece_elems_at(d: Seq<u8>) -> int {
    match piece_clients(d) {
        Some((_, at)) => at + 8,
        None => 8,
    }
}

/// The number of pieces of the piece table encoded in `d`.
pub open spec fn piece_count(d: Seq<u8>) -> nat {
    from_be64(d.subrange(piece_elems_at(d) - 8, piece_elems_at(d))) as nat
}

/// The marks of the pieces of the piece table encoded in `d`.
pub open spec fn piece_marks(d: Seq<u8>) -> Seq<(Option<(usize, bool)>, usize, usize)> {
    elems_marks(d, piece_elems_at(d), piece_count(d))
}

/// Where the encoding of the piece table at the front of `d` ends.
pub open spec fn piece_end(d: Seq<u8>) -> int {
    elems_end(d, piece_elems_at(d), piece_count(d))
}

/// The lengths of the client buffers of the piece table encoded in `d`.
pub open spec fn piece_client_lens(d: Seq<u8>) -> Seq<nat> {
    match piece_clients(d) {
        Some((cls, _)) => cls.map_values(|b: Seq<u8>| b.len()),
        None => Seq::empty(),
    }
}

/// A piece whose encoding starts `d` has the mark that `d` encodes.
proof fn lemma_elem_mark(d: Seq<u8>, e: TableElem, n: int)
    requires
        0 <= n <= d.len(),
        d.take(n) == elem_encoding(e),
    ensures
        elem_mark(d) == piece_mark(e),
        n == elem_fields_at(d) + 24,
        from_be64(d.subrange(elem_fields_at(d), elem_fields_at(d) + 8)) == e.id as u64,
        from_be64(d.subrange(elem_fields_at(d) + 8, elem_fields_at(d) + 16)) == e.text.start() as u64,
        from_be64(d.subrange(elem_fields_at(d) + 16, elem_fields_at(d) + 24)) == e.text.end() as u64,
        e.buf is None ==> d[0] == 0,
        e.buf matches Some((b, editing)) ==> d[0] == (if editing { 2u8 } else { 1u8 }) && from_be64(
            d.subrange(1, 9),
        ) == b as u64,
{
    let at = buf_encoding(e.buf).len() as int;
    crate::btep::lemma_be64(e.id as u64);
    crate::btep::lemma_be64(e.text.start() as u64);
    crate::btep::lemma_be64(e.text.end() as u64);
    assert(buf_encoding(e.buf).len() >= 1);
    assert(d.take(n).len() == n);
    assert(n == at + 24);
    assert(d.take(n)[0] == d[0]);
    match e.buf {
        None => {},
        Some((b, _)) => {
            crate::btep::lemma_be64(b as u64);
            assert(d.subrange(1, 9) =~= d.take(n).subrange(1, 9));
            assert(d.take(n).subrange(1, 9) =~= be64(b as u64));
        },
    }
    assert(elem_fields_at(d) == at);
    assert(d.subrange(at + 8, at + 16) =~= d.take(n).subrange(at + 8, at + 16));
    assert(d.take(n).subrange(at + 8, at + 16) =~= be64(e.text.start() as u64));
    assert(d.subrange(at + 16, at + 24) =~= d.take(n).subrange(at + 16, at + 24));
    assert(d.take(n).subrange(at + 16, at + 24) =~= be64(e.text.end() as u64));
    assert(d.subrange(at, at + 8) =~= d.take(n).subrange(at, at + 8));
    assert(d.take(n).subrange(at, at + 8) =~= be64(e.id as u64));
}

/// A piece of `buffers` whose encoding starts `d` can be read back from `d`.
proof fn lemma_elem_readable(d: Seq<u8>, e: TableElem, n: int, buffers: Buffers)
    requires
        0 <= n <= d.len(),
        d.take(n) == elem_encoding(e),
        buffers.wf(),
        piece_in_buffers(e, buffers),
    ensures
        elem_readable(d, buffers.original.1@, client_bytes(buffers.clients@)),
        n == elem_fields_at(d) + 24,
{
    lemma_elem_mark(d, e, n);
    let source = buffers.buffer_of(e.buf);
    match e.buf {
        None => {},
        Some((b, _)) => {
            assert(b < buffers.clients@.len());
            assert(client_bytes(buffers.clients@)[b as int] == buffers.clients@[b as int].1@);
            assert(buffers.clients@[b as int].1.well_formed());
        },
    }
    assert(valid_utf8(source));
    let pre = e.text.buffer();
    assert(source.subrange(0, pre.len() as int) == pre);
    crate::encoding::lemma_boundary_extends(source, pre.len() as int, e.text.start() as int);
    crate::encoding::lemma_boundary_extends(source, pre.len() as int, e.text.end() as int);
}

/// The encodings of the first `i` client buffers begin those of the first `j`.
proof fn lemma_clients_prefix(cs: Seq<(AutoIncrementing, AppendOnlyStr)>, i: int, j: int)
    requires
        0 <= i <= j <= cs.len(),
    ensures
        clients_encoding(cs.take(i)).len() <= clients_encoding(cs.take(j)).len(),
        clients_encoding(cs.take(j)).take(clients_encoding(cs.take(i)).len() as int)
            == clients_encoding(cs.take(i)),
    decreases j - i,
{
    let e = clients_encoding(cs.take(i));
    if i < j {
        lemma_clients_prefix(cs, i, j - 1);
        let a = clients_encoding(cs.take(j - 1));
        assert(cs.take(j).drop_last() =~= cs.take(j - 1));
        assert(clients_encoding(cs.take(j)) == a + seq![0xfeu8] + be64(cs[j - 1].0.value() as u64)
            + cs[j - 1].1@);
        assert(clients_encoding(cs.take(j)).take(e.len() as int) =~= a.take(e.len() as int));
    } else {
        assert(clients_encoding(cs.take(j)).take(e.len() as int) =~= e);
    }
}

/// Reading client buffers back from `d`, where their encodings start at `h` and are followed
/// by `0xff`: from the separator before buffer `i` on, the rest of them are read, and the
/// separator there cannot start a character.
#[verifier::spinoff_prover]
proof fn lemma_clients_parse(d: Seq<u8>, h: int, cs: Seq<(AutoIncrementing, AppendOnlyStr)>, i: int)
    requires
        0 <= h,
        0 <= i <= cs.len(),
        d.len() > h + clients_encoding(cs).len(),
        d.subrange(h, h + clients_encoding(cs).len()) == clients_encoding(cs),
        d[h + clients_encoding(cs).len()] == 0xff,
        forall|j: int|
            0 <= j < cs.len() ==> (#[trigger] cs[j]).1.well_formed() && cs[j].1@.len() <= isize::MAX,
    ensures
        stop_byte(d[h + clients_encoding(cs.take(i)).len()]),
        clients_from(
            d,
            h + clients_encoding(cs.take(i)).len() + 1,
            d[h + clients_encoding(cs.take(i)).len()],
            client_bytes(cs.take(i)),
        ) == Some((client_bytes(cs), h + clients_encoding(cs).len() + 1)),
    decreases cs.len() - i,
{
    let n = cs.len() as int;
    let full = clients_encoding(cs);
    assert(cs.take(n) =~= cs);
    let ei = clients_encoding(cs.take(i));
    let pos = h + ei.len();
    if i == n {
        assert(client_bytes(cs.take(i)) =~= client_bytes(cs));
    } else {
        let c = cs[i].0.value();
        let b = cs[i].1@;
        let m = b.len() as int;
        cs[i].0.lemma_value_bound();
        assert(cs.take(i + 1).drop_last() =~= cs.take(i));
        let ei1 = clients_encoding(cs.take(i + 1));
        assert(ei1 == ei + seq![0xfeu8] + be64(c as u64) + b);
        lemma_clients_prefix(cs, i + 1, n);
        assert forall|t: int| 0 <= t < ei1.len() implies d[h + t] == #[trigger] ei1[t] by {
            assert(full.take(ei1.len() as int)[t] == full[t]);
            assert(d.subrange(h, h + full.len())[t] == d[h + t]);
        }
        crate::btep::lemma_be64(c as u64);
        assert(d[pos] == ei1[ei.len() as int]);
        assert(d.subrange(pos + 1, pos + 9) =~= be64(c as u64)) by {
            assert forall|t: int| 0 <= t < 8 implies #[trigger] d.subrange(pos + 1, pos + 9)[t]
                == be64(c as u64)[t] by {
                assert(d[pos + 1 + t] == ei1[ei.len() + 1 + t]);
            }
        }
        let rest = d.subrange(pos + 9, d.len() as int);
        assert(rest.take(m) =~= b) by {
            assert forall|t: int| 0 <= t < m implies #[trigger] rest.take(m)[t] == b[t] by {
                assert(d[pos + 9 + t] == ei1[ei.len() + 9 + t]);
            }
        }
        let next = h + ei1.len();
        assert(next == pos + 9 + m);
        if i + 1 == n {
            assert(cs.take(i + 1) =~= cs);
        }
        lemma_clients_parse(d, h, cs, i + 1);
        assert(rest[m] == d[next]);
        assert(text_ends_at(rest, m));
        lemma_buffer_end(rest, m);
        assert(client_bytes(cs.take(i)).push(rest.take(m)) =~= client_bytes(cs.take(i + 1)));
    }
}

/// The encodings of the first `i` pieces begin those of the first `j`.
proof fn lemma_elems_prefix(ps: Seq<TableElem>, i: int, j: int)
    requires
        0 <= i <= j <= ps.len(),
    ensures
        elems_encoding(ps.take(i)).len() <= elems_encoding(ps.take(j)).len(),
        elems_encoding(ps.take(j)).take(elems_encoding(ps.take(i)).len() as int)
            == elems_encoding(ps.take(i)),
    decreases j - i,
{
    let e = elems_encoding(ps.take(i));
    if i < j {
        lemma_elems_prefix(ps, i, j - 1);
        let a = elems_encoding(ps.take(j - 1));
        assert(ps.take(j).drop_last() =~= ps.take(j - 1));
        assert(elems_encoding(ps.take(j)) == a + elem_encoding(ps[j - 1]));
        assert(elems_encoding(ps.take(j)).take(e.len() as int) =~= a.take(e.len() as int));
    } else {
        assert(elems_encoding(ps.take(j)).take(e.len() as int) =~= e);
    }
}

/// Reading pieces of `buffers` back from `d`, where their encodings start at `h`: from piece
/// `k` on, all the rest are readable.
#[verifier::spinoff_prover]
#[verifier::rlimit(40)]
proof fn lemma_elems_parse(d: Seq<u8>, h: int, ps: Seq<TableElem>, k: int, buffers: Buffers)
    requires
        0 <= h,
        0 <= k <= ps.len(),
        d.len() >= h + elems_encoding(ps).len(),
        d.subrange(h, h + elems_encoding(ps).len()) == elems_encoding(ps),
        buffers.wf(),
        forall|i: int| 0 <= i < ps.len() ==> piece_in_buffers(#[trigger] ps[i], buffers),
    ensures
        elems_from(
            d,
            h + elems_encoding(ps.take(k)).len(),
            (ps.len() - k) as nat,
            buffers.original.1@,
            client_bytes(buffers.clients@),
        ),
        elems_end(d, h + elems_encoding(ps.take(k)).len(), (ps.len() - k) as nat) == h
            + elems_encoding(ps).len(),
        elems_marks(d, h + elems_encoding(ps.take(k)).len(), (ps.len() - k) as nat)
            == ps.skip(k).map_values(|e: TableElem| piece_mark(e)),
    decreases ps.len() - k,
{
    let n = ps.len() as int;
    if k == n {
        assert(ps.take(n) =~= ps);
        assert(ps.skip(k).map_values(|e: TableElem| piece_mark(e)) =~= Seq::<
            (Option<(usize, bool)>, usize, usize),
        >::empty());
    }
    if k < n {
        let full = elems_encoding(ps);
        assert(ps.take(n) =~= ps);
        let ek = elems_encoding(ps.take(k));
        assert(ps.take(k + 1).drop_last() =~= ps.take(k));
        let ee = elem_encoding(ps[k]);
        let ek1 = elems_encoding(ps.take(k + 1));
        assert(ek1 == ek + ee);
        lemma_elems_prefix(ps, k + 1, n);
        let pos = h + ek.len();
        let rest = d.subrange(pos, d.len() as int);
        assert(rest.take(ee.len() as int) =~= ee) by {
            assert forall|t: int| 0 <= t < ee.len() implies #[trigger] rest.take(ee.len() as int)[t]
                == ee[t] by {
                assert(full.take(ek1.len() as int)[ek.len() + t] == full[ek.len() + t]);
                assert(d.subrange(h, h + full.len())[ek.len() + t] == d[h + ek.len() + t]);
                assert(ek1[ek.len() + t] == ee[t]);
            }
        }
        lemma_elem_readable(rest, ps[k], ee.len() as int, buffers);
        lemma_elem_mark(rest, ps[k], ee.len() as int);
        lemma_elems_parse(d, h, ps, k + 1, buffers);
        assert(((ps.len() - k) as nat - 1) as nat == (ps.len() - (k + 1)) as nat);
        assert(ps.skip(k).map_values(|e: TableElem| piece_mark(e)) =~= seq![piece_mark(ps[k])]
            + ps.skip(k + 1).map_values(|e: TableElem| piece_mark(e)));
    }
}

/// The bytes of the original buffer of the piece table encoded in `d`.
pub open spec fn piece_original_bytes(d: Seq<u8>) -> Seq<u8> {
    let rest = d.subrange(8, d.len() as int);
    rest.take(buffer_end(rest))
}

/// Every well-formed piece table, its buffers short enough for a buffer and its pieces
/// countable, is read back from its encoding, whatever follows it.
pub proof fn law_piece_encoding_parses(p: Piece, rest: Seq<u8>)
    requires
        p.wf(),
        p.buffers.original.1@.len() <= isize::MAX,
        forall|i: int|
            0 <= i < p.buffers.clients@.len() ==> (#[trigger] p.buffers.clients@[i]).1@.len()
                <= isize::MAX,
        p.pieces().len() <= usize::MAX,
    ensures
        piece_readable(piece_encoding(p) + rest),
        piece_end(piece_encoding(p) + rest) == piece_encoding(p).len(),
        piece_marks(piece_encoding(p) + rest) == table_marks(p),
        piece_client_lens(piece_encoding(p) + rest) == table_lens(p),
        piece_original_bytes(piece_encoding(p) + rest) == p.buffers.original.1@,
        piece_clients(piece_encoding(p) + rest) matches Some((cls, _)) && cls == client_bytes(
            p.buffers.clients@,
        ),
{
    let bufs = p.buffers;
    let orig = bufs.original.1@;
    let cs = bufs.clients@;
    let ps = p.pieces();
    let oc = bufs.original.0.value();
    bufs.original.0.lemma_value_bound();
    let ce = clients_encoding(cs);
    let ee = elems_encoding(ps);
    let nn = ps.len() as u64;
    let d = piece_encoding(p) + rest;
    let l0 = orig.len() as int;
    let h = 8 + l0;
    let at = h + ce.len() + 1;
    crate::btep::lemma_be64(oc as u64);
    crate::btep::lemma_be64(nn);
    assert(d =~= be64(oc as u64) + orig + ce + seq![0xffu8] + be64(nn) + ee + rest);
    assert(d.subrange(0, 8) =~= be64(oc as u64));
    assert(d.subrange(h, h + ce.len()) =~= ce);
    assert(d[h + ce.len()] == 0xff);
    assert(d.subrange(at, at + 8) =~= be64(nn));
    assert(d.subrange(at + 8, at + 8 + ee.len()) =~= ee);
    lemma_clients_parse(d, h, cs, 0);
    assert(cs.take(0) =~= Seq::<(AutoIncrementing, AppendOnlyStr)>::empty());
    assert(client_bytes(cs.take(0)) =~= Seq::<Seq<u8>>::empty());
    let rest0 = d.subrange(8, d.len() as int);
    assert(rest0.take(l0) =~= orig);
    assert(rest0[l0] == d[h]);
    assert(text_ends_at(rest0, l0));
    lemma_buffer_end(rest0, l0);
    assert(piece_clients(d) == Some((client_bytes(cs), at)));
    lemma_elems_parse(d, at + 8, ps, 0, bufs);
    assert(ps.take(0) =~= Seq::<TableElem>::empty());
    assert(ps.skip(0) =~= ps);
    assert(piece_elems_at(d) == at + 8);
    assert(piece_count(d) == ps.len());
    assert(piece_client_lens(d) =~= table_lens(p)) by {
        assert forall|j: int| 0 <= j < cs.len() implies #[trigger] client_bytes(cs)[j].len()
            == cs[j].1@.len() by {
            assert(client_bytes(cs)[j] == cs[j].1@);
        }
    }
}

/// A text that ends at `m`, short enough for a buffer, is the one `buffer_end` names.
proof fn lemma_buffer_end(d: Seq<u8>, m: int)
    requires
        text_ends_at(d, m),
        m <= isize::MAX,
    ensures
        buffer_readable(d),
        buffer_end(d) == m,
{
    let c = buffer_end(d);
    assert(text_ends_at(d, c) && c <= isize::MAX);
    lemma_text_end_unique(d, c, m);
}

/// Appends the encoding of a piece's buffer marking.
fn push_buf(out: &mut Vec<u8>, buf: Option<(usize, bool)>)
    ensures
        final(out)@ == old(out)@ + buf_encoding(buf),
{
    match buf {
        None => out.push(0u8),
        Some((b, editing)) => {
            out.push(if editing { 2u8 } else { 1u8 });
            push_u64(out, b as u64);
        },
    }
    proof {
        assert(final(out)@ =~= old(out)@ + buf_encoding(buf));
    }
}

/// The bytes of a buffer.
fn buffer_bytes(s: &AppendOnlyStr) -> (r: Vec<u8>)
    ensures
        r@ == s@,
{
    let whole = s.full_str_slice();
    let text = whole.as_str();
    let mut r = Vec::new();
    push_all(&mut r, text.as_bytes());
    proof {
        assert(whole.bytes() =~= s@);
    }
    r
}

impl Serialize for Piece {
    open spec fn encoding(&self) -> Seq<u8> {
        piece_encoding(*self)
    }

    fn serialize(&self) -> (r: Vec<u8>) {
        let mut r = Vec::new();
        push_u64(&mut r, self.buffers.original.0.peek() as u64);
        let orig = buffer_bytes(&self.buffers.original.1);
        push_all(&mut r, orig.as_slice());
        let mut i: usize = 0;
        while i < self.buffers.clients.len()
            invariant
                i <= self.buffers.clients@.len(),
                r@ == be64(self.buffers.original.0.value() as u64) + self.buffers.original.1@
                    + clients_encoding(self.buffers.clients@.take(i as int)),
            decreases self.buffers.clients@.len() - i,
        {
            r.push(0xfeu8);
            push_u64(&mut r, self.buffers.clients[i].0.peek() as u64);
            let bytes = buffer_bytes(&self.buffers.clients[i].1);
            push_all(&mut r, bytes.as_slice());
            proof {
                assert(self.buffers.clients@.take(i + 1).drop_last() =~= self.buffers.clients@.take(
                    i as int,
                ));
                assert(r@ =~= be64(self.buffers.original.0.value() as u64)
                    + self.buffers.original.1@ + clients_encoding(
                    self.buffers.clients@.take(i + 1),
                ));
            }
            i = i + 1;
        }
        proof {
            assert(self.buffers.clients@.take(i as int) =~= self.buffers.clients@);
        }
        r.push(0xffu8);
        let elems = self.piece_table.elements();
        let ghost ps = self.pieces();
        proof {
            self.piece_table.lemma_lengths();
        }
        push_u64(&mut r, elems.len() as u64);
        let ghost head = r@;
        let mut k: usize = 0;
        while k < elems.len()
            invariant
                k <= elems@.len(),
                elems@ == self.piece_table.elems(),
                ps == self.pieces(),
                ps.len() == elems@.len(),
                r@ == head + elems_encoding(ps.take(k as int)),
            decreases elems@.len() - k,
        {
            let e = elems[k].read();
            proof {
                assert(*e == ps[k as int]);
            }
            push_buf(&mut r, e.buf);
            push_u64(&mut r, e.id as u64);
            push_u64(&mut r, e.text.start() as u64);
            push_u64(&mut r, e.text.end() as u64);
            proof {
                assert(ps.take(k + 1).drop_last() =~= ps.take(k as int));
                assert(r@ =~= head + elems_encoding(ps.take(k + 1)));
            }
            k = k + 1;
        }
        proof {
            assert(ps.take(k as int) =~= ps);
            assert(r@ =~= piece_encoding(*self));
        }
        r
    }
}


/// A buffer holding `s`, when its bytes fit an allocation.
fn make_buffer(s: &str) -> (r: Option<AppendOnlyStr>)
    ensures
        r is Some <==> s.spec_bytes().len() <= isize::MAX,
        r matches Some(b) ==> b.well_formed() && b@ == s.spec_bytes(),
{
    let bytes = s.as_bytes();
    if bytes.len() > isize::MAX as usize {
        return None;
    }
    Some(AppendOnlyStr::from_str(s))
}

/// Reads a buffer's text off the front of `data`, up to the separator byte that ends it.
/// Returns the buffer, the separator and the number of bytes taken, separator included. It
/// fails when no valid text ends at a separator, or when the text is too long for a buffer.
fn read_buffer(data: &[u8]) -> (r: Option<(AppendOnlyStr, u8, usize)>)
    ensures
        r is Some <==> exists|m: int| text_ends_at(data@, m) && m <= isize::MAX,
        r matches Some((b, sep, n)) ==> {
            &&& 1 <= n <= data@.len()
            &&& text_ends_at(data@, n - 1)
            &&& n - 1 <= isize::MAX
            &&& b.well_formed()
            &&& data@.take(n as int) == b@ + seq![sep]
            &&& stop_byte(sep)
        },
{
    let mut text = String::new();
    let (sep, n) = match read_valid_str(data, &mut text) {
        Some((Some(sep), n)) => (sep, n),
        Some((None, n)) => {
            proof {
                assert(data@.take(data@.len() as int) =~= data@);
                assert forall|m: int| !text_ends_at(data@, m) by {
                    if text_ends_at(data@, m) {
                        lemma_no_stop_inside(data@, m, data@.len() as int);
                    }
                }
            }
            return None;
        },
        None => {
            proof {
                assert forall|m: int| !text_ends_at(data@, m) by {
                    if text_ends_at(data@, m) {
                        assert(valid_utf8(data@.take(m)));
                    }
                }
            }
            return None;
        },
    };
    proof {
        assert(text_ends_at(data@, n - 1));
        assert forall|m: int| text_ends_at(data@, m) implies m == n - 1 by {
            lemma_text_end_unique(data@, m, n - 1);
        }
    }
    let ghost body = data@.take(n - 1);
    proof {
        assert(text@ == decode_utf8(body)) by {
            assert(Seq::<char>::empty() + decode_utf8(body) =~= decode_utf8(body));
        }
        decode_utf8_encode_utf8(body);
    }
    let buf = match make_buffer(text.as_str()) {
        Some(b) => b,
        None => return None,
    };
    proof {
        assert(data@.take(n as int) =~= body + seq![sep]);
    }
    Some((buf, sep, n))
}

/// Reads the encoding of a piece, whose buffer marking names one of `buffers`, off the front of
/// `data`; the piece reads `start..end` of the buffer as it now is.
fn read_elem(data: &[u8], buffers: &Buffers) -> (r: Option<(TableElem, usize)>)
    requires
        buffers.wf(),
    ensures
        r is Some <==> elem_readable(
            data@,
            buffers.original.1@,
            client_bytes(buffers.clients@),
        ),
        r matches Some((e, n)) ==> {
            &&& n == elem_fields_at(data@) + 24
            &&& n <= data@.len()
            &&& data@.take(n as int) == elem_encoding(e)
            &&& piece_in_buffers(e, *buffers)
            &&& e.text.buffer() == buffers.buffer_of(e.buf)
        },
{
    if data.len() == 0 {
        return None;
    }
    let tag = data[0];
    let nclients = buffers.clients.len();
    let (buf, at): (Option<(usize, bool)>, usize) = if tag == 0 {
        (None, 1)
    } else if tag == 1 || tag == 2 {
        match read_usize(data, 1) {
            Some(b) => (Some((b, tag == 2)), 9),
            None => {
                proof {
                    assert(nclients == buffers.clients@.len());
                }
                return None;
            },
        }
    } else {
        return None;
    };
    let id = match read_usize(data, at) {
        Some(v) => v,
        None => return None,
    };
    let start = match read_usize(data, at + 8) {
        Some(v) => v,
        None => return None,
    };
    let end = match read_usize(data, at + 16) {
        Some(v) => v,
        None => return None,
    };
    let source = match buf {
        None => &buffers.original.1,
        Some((b, _)) => {
            if b >= buffers.clients.len() {
                return None;
            }
            proof {
                assert(client_bytes(buffers.clients@)[b as int] == buffers.clients@[b as int].1@);
            }
            &buffers.clients[b].1
        },
    };
    if start > end || end > source.len() {
        return None;
    }
    let whole = source.full_str_slice();
    proof {
        assert(whole.bytes() =~= source@);
    }
    let text = match whole.subslice(Span::range(start, end)) {
        Some(t) => t,
        None => return None,
    };
    let e = TableElem { buf, id, text };
    proof {
        crate::btep::lemma_from_be64(data@.subrange(at as int, at + 8));
        crate::btep::lemma_from_be64(data@.subrange(at + 8, at + 16));
        crate::btep::lemma_from_be64(data@.subrange(at + 16, at + 24));
        if at == 9 {
            crate::btep::lemma_from_be64(data@.subrange(1, 9));
            assert(data@.take(9) =~= buf_encoding(buf));
        } else {
            assert(data@.take(1) =~= buf_encoding(buf));
        }
        assert(data@.take(at + 24) =~= elem_encoding(e));
        assert(text.buffer().subrange(0, text.buffer().len() as int) =~= text.buffer());
    }
    Some((e, at + 24))
}

impl Deserialize for Piece {
    #[verifier::rlimit(100)]
    #[verifier::spinoff_prover]
    fn deserialize(data: &[u8]) -> (r: Option<(Self, usize)>)
        ensures
            r is Some <==> piece_readable(data@),
            r matches Some((p, n)) ==> p.wf() && p.piece_table.lock_state()
                == TableState::Unshared,
            r matches Some((p, n)) ==> {
                &&& n == piece_end(data@)
                &&& table_marks(p) == piece_marks(data@)
                &&& table_lens(p) == piece_client_lens(data@)
            },
    {
        let oc = match read_usize(data, 0) {
            Some(v) => v,
            None => return None,
        };
        proof {
            crate::btep::lemma_from_be64(data@.subrange(0, 8));
        }
        let ghost rest0 = data@.subrange(8, data@.len() as int);
        let (original, first_sep, n0) = match read_buffer(&data[8..data.len()]) {
            Some(x) => x,
            None => return None,
        };
        proof {
            lemma_buffer_end(rest0, n0 - 1);
            assert(rest0.take(n0 as int) == original@ + seq![first_sep]);
            assert(rest0.take(n0 as int).len() == n0);
            assert(original@.len() == n0 - 1);
            assert forall|i: int| 0 <= i < n0 - 1 implies rest0.take(n0 - 1)[i] == original@[i] by {
                assert(rest0.take(n0 as int)[i] == rest0[i]);
                assert((original@ + seq![first_sep])[i] == original@[i]);
            }
            assert(original@ =~= rest0.take(n0 - 1));
            assert(rest0.take(n0 as int)[n0 - 1] == rest0[n0 - 1]);
            assert(rest0[buffer_end(rest0)] == first_sep);
        }
        let ghost total = clients_from(data@, 8 + n0, first_sep, Seq::<Seq<u8>>::empty());
        proof {
            assert(piece_readable(data@) ==> total is Some);
        }
        let mut sep = first_sep;
        let mut at = 8 + n0;
        let mut clients: Vec<(AutoIncrementing, AppendOnlyStr)> = Vec::new();
        proof {
            let rest = data@.subrange(8, data@.len() as int);
            assert(data@.take(8) =~= data@.subrange(0, 8));
            assert(data@.take(at as int) =~= data@.take(8) + rest.take(n0 as int));
            assert(clients_encoding(clients@) =~= Seq::<u8>::empty());
            assert(data@.take(at as int) =~= be64(oc as u64) + original@ + clients_encoding(
                clients@,
            ) + seq![sep]);
            assert(client_bytes(clients@) =~= Seq::<Seq<u8>>::empty());
        }
        while sep == 0xfe
            invariant
                at <= data@.len(),
                data@.take(at as int) == be64(oc as u64) + original@ + clients_encoding(clients@)
                    + seq![sep],
                forall|i: int| 0 <= i < clients@.len() ==> (#[trigger] clients@[i]).1.well_formed(),
                clients_from(data@, at as int, sep, client_bytes(clients@)) == total,
                piece_readable(data@) ==> total is Some,
            decreases data@.len() - at,
        {
            let c = match read_usize(data, at) {
                Some(v) => v,
                None => {
                    proof {
                        assert(total is None);
                    }
                    return None;
                },
            };
            let len = data.len();
            assert(at + 8 <= len);
            let ghost rest = data@.subrange(at + 8, data@.len() as int);
            let (buf, next, m) = match read_buffer(&data[at + 8..data.len()]) {
                Some(x) => x,
                None => {
                    proof {
                        assert(total is None);
                    }
                    return None;
                },
            };
            let counter = AutoIncrementing::new_with_start(c);
            let ghost before = clients@;
            clients.push((counter, buf));
            proof {
                lemma_buffer_end(rest, m - 1);
                assert(rest.take(m as int) == buf@ + seq![next]);
                assert(rest.take(m as int).len() == m);
                assert(buf@.len() == m - 1);
                assert forall|i: int| 0 <= i < m - 1 implies rest.take(m - 1)[i] == buf@[i] by {
                    assert(rest.take(m as int)[i] == rest[i]);
                    assert((buf@ + seq![next])[i] == buf@[i]);
                }
                assert(buf@ =~= rest.take(m - 1));
                assert(rest.take(m as int)[m - 1] == rest[m - 1]);
                assert(client_bytes(clients@) =~= client_bytes(before).push(rest.take(m - 1)));
                crate::btep::lemma_from_be64(data@.subrange(at as int, at + 8));
                assert(clients@.drop_last() =~= before);
                assert(data@.take(at + 8 + m) =~= data@.take(at as int) + data@.subrange(
                    at as int,
                    at + 8,
                ) + (buf@ + seq![next]));
                assert(data@.take(at + 8 + m) =~= be64(oc as u64) + original@ + clients_encoding(
                    clients@,
                ) + seq![next]);
            }
            at = at + 8 + m;
            sep = next;
        }
        if sep != 0xff {
            proof {
                assert(total is None);
            }
            return None;
        }
        proof {
            assert(total == Some((client_bytes(clients@), at as int)));
        }
        let ghost cls = client_bytes(clients@);
        let buffers = Buffers { original: (AutoIncrementing::new_with_start(oc), original), clients };
        let count = match crate::btep::read_u64(data, at) {
            Some(v) => v,
            None => {
                proof {
                    assert(!piece_readable(data@));
                }
                return None;
            },
        };
        proof {
            crate::btep::lemma_from_be64(data@.subrange(at as int, at + 8));
            assert(buffers.wf());
        }
        let ghost head = data@.take(at + 8);
        at = at + 8;
        let ghost ev = elems_from(
            data@,
            at as int,
            count as nat,
            buffers.original.1@,
            client_bytes(buffers.clients@),
        );
        let ghost e0 = at as int;
        proof {
            assert(cls == client_bytes(buffers.clients@));
            assert(rest0.take(buffer_end(rest0)) == buffers.original.1@);
            assert(piece_readable(data@) <==> (ev && count <= usize::MAX));
            assert(piece_clients(data@) == total);
            assert(piece_elems_at(data@) == e0);
            assert(piece_count(data@) == count as nat);
            assert(piece_client_lens(data@) =~= table_lens_of(buffers.clients@)) by {
                assert forall|j: int| 0 <= j < cls.len() implies #[trigger] cls[j].len()
                    == buffers.clients@[j].1@.len() by {
                    assert(cls[j] == buffers.clients@[j].1@);
                }
            }
        }
        let mut builder = InnerTable::builder();
        let mut k: u64 = 0;
        proof {
            assert(builder.items() =~= Seq::<TableElem>::empty());
        }
        while k < count
            invariant
                buffers.wf(),
                builder.wf(),
                builder.next_key() == builder.items().len(),
                builder.items().len() == k,
                k <= count,
                k <= usize::MAX,
                head.len() <= at <= data@.len(),
                head == data@.take(head.len() as int),
                data@.subrange(head.len() as int, at as int) == elems_encoding(builder.items()),
                forall|i: int| 0 <= i < builder.items().len() ==> piece_in_buffers(
                    #[trigger] builder.items()[i],
                    buffers,
                ),
                piece_readable(data@) <==> (ev && count <= usize::MAX),
                elems_from(
                    data@,
                    at as int,
                    (count - k) as nat,
                    buffers.original.1@,
                    client_bytes(buffers.clients@),
                ) == ev,
                elems_marks(data@, e0, count as nat) == builder.items().map_values(
                    |e: TableElem| piece_mark(e),
                ) + elems_marks(data@, at as int, (count - k) as nat),
                elems_end(data@, e0, count as nat) == elems_end(
                    data@,
                    at as int,
                    (count - k) as nat,
                ),
            decreases count - k,
        {
            let (e, m) = match read_elem(&data[at..data.len()], &buffers) {
                Some(x) => x,
                None => return None,
            };
            let ghost before = builder.items();
            if k >= usize::MAX as u64 {
                return None;
            }
            builder.push(e);
            proof {
                let rest = data@.subrange(at as int, data@.len() as int);
                lemma_elem_mark(rest, e, m as int);
                assert(builder.items().map_values(|e: TableElem| piece_mark(e)) =~= before.map_values(
                    |e: TableElem| piece_mark(e),
                ).push(piece_mark(e)));
                assert(elems_marks(data@, at as int, (count - k) as nat) =~= seq![elem_mark(rest)]
                    + elems_marks(data@, at + m, (count - (k + 1)) as nat));
                assert(builder.items().drop_last() =~= before);
                assert(data@.subrange(head.len() as int, at + m) =~= data@.subrange(
                    head.len() as int,
                    at as int,
                ) + data@.subrange(at as int, at + m));
                assert(forall|i: int| 0 <= i < before.len() ==> builder.items()[i] == before[i]);
                assert(((count - k) as nat - 1) as nat == (count - (k + 1)) as nat);
            }
            at = at + m;
            k = k + 1;
        }
        let piece = Piece { buffers, piece_table: Table::new(builder) };
        proof {
            assert(elems_marks(data@, at as int, 0) =~= Seq::empty());
            assert(table_marks(piece) =~= piece_marks(data@));
            assert(table_lens(piece) =~= table_lens_of(piece.buffers.clients@));
            assert(data@.take(at as int) =~= head + data@.subrange(head.len() as int, at as int));
            assert(data@.take(at as int) =~= piece_encoding(piece));
        }
        Some((piece, at))
    }
}

/// Client buffers holding the same bytes have encodings of the same length.
proof fn lemma_clients_encoding_len(
    cs: Seq<(AutoIncrementing, AppendOnlyStr)>,
    cs2: Seq<(AutoIncrementing, AppendOnlyStr)>,
)
    requires
        client_bytes(cs) == client_bytes(cs2),
    ensures
        clients_encoding(cs).len() == clients_encoding(cs2).len(),
    decreases cs.len(),
{
    assert(cs.len() == client_bytes(cs).len());
    assert(cs2.len() == client_bytes(cs2).len());
    if cs.len() > 0 {
        let n = cs.len() - 1;
        assert(client_bytes(cs.drop_last()) =~= client_bytes(cs2.drop_last())) by {
            assert forall|j: int| 0 <= j < n implies #[trigger] client_bytes(cs.drop_last())[j]
                == client_bytes(cs2.drop_last())[j] by {
                assert(client_bytes(cs)[j] == client_bytes(cs2)[j]);
            }
        }
        lemma_clients_encoding_len(cs.drop_last(), cs2.drop_last());
        assert(client_bytes(cs)[n] == client_bytes(cs2)[n]);
    }
}

/// Client buffers holding the same bytes, with the same encoding, have the same counters.
proof fn lemma_clients_counters(
    cs: Seq<(AutoIncrementing, AppendOnlyStr)>,
    cs2: Seq<(AutoIncrementing, AppendOnlyStr)>,
)
    requires
        client_bytes(cs) == client_bytes(cs2),
        clients_encoding(cs) == clients_encoding(cs2),
    ensures
        forall|j: int| 0 <= j < cs.len() ==> (#[trigger] cs[j]).0.value() == cs2[j].0.value(),
    decreases cs.len(),
{
    assert(cs.len() == client_bytes(cs).len());
    assert(cs2.len() == client_bytes(cs2).len());
    if cs.len() > 0 {
        let n = cs.len() - 1;
        let i1 = cs.drop_last();
        let i2 = cs2.drop_last();
        assert(client_bytes(i1) =~= client_bytes(i2)) by {
            assert forall|j: int| 0 <= j < n implies #[trigger] client_bytes(i1)[j]
                == client_bytes(i2)[j] by {
                assert(client_bytes(cs)[j] == client_bytes(cs2)[j]);
            }
        }
        lemma_clients_encoding_len(i1, i2);
        let e1 = clients_encoding(i1);
        let e2 = clients_encoding(i2);
        let c1 = cs[n].0.value();
        let c2 = cs2[n].0.value();
        cs[n].0.lemma_value_bound();
        cs2[n].0.lemma_value_bound();
        let whole = clients_encoding(cs);
        assert(whole == e1 + seq![0xfeu8] + be64(c1 as u64) + cs[n].1@);
        assert(clients_encoding(cs2) == e2 + seq![0xfeu8] + be64(c2 as u64) + cs2[n].1@);
        assert(e1 =~= whole.take(e1.len() as int));
        assert(e2 =~= whole.take(e1.len() as int));
        assert(be64(c1 as u64) =~= whole.subrange(e1.len() + 1int, e1.len() + 9int));
        assert(be64(c2 as u64) =~= whole.subrange(e1.len() + 1int, e1.len() + 9int));
        crate::btep::lemma_be64(c1 as u64);
        crate::btep::lemma_be64(c2 as u64);
        lemma_clients_counters(i1, i2);
        assert forall|j: int| 0 <= j < cs.len() implies (#[trigger] cs[j]).0.value()
            == cs2[j].0.value() by {
            if j < n {
                assert(i1[j] == cs[j]);
                assert(i2[j] == cs2[j]);
            }
        }
    }
}

/// Pieces with the same marks and the same encoding have the same ids.
proof fn lemma_elems_ids(ps: Seq<TableElem>, qs: Seq<TableElem>)
    requires
        ps.len() == qs.len(),
        forall|k: int| 0 <= k < ps.len() ==> piece_mark(#[trigger] ps[k]) == piece_mark(qs[k]),
        elems_encoding(ps) == elems_encoding(qs),
    ensures
        forall|k: int| 0 <= k < ps.len() ==> (#[trigger] ps[k]).id == qs[k].id,
    decreases ps.len(),
{
    if ps.len() > 0 {
        let n = ps.len() - 1;
        let i1 = ps.drop_last();
        let i2 = qs.drop_last();
        assert forall|k: int| 0 <= k < i1.len() implies piece_mark(#[trigger] i1[k]) == piece_mark(
            i2[k],
        ) by {
            assert(piece_mark(ps[k]) == piece_mark(qs[k]));
        }
        let whole = elems_encoding(ps);
        let a = elem_encoding(ps[n]);
        let b = elem_encoding(qs[n]);
        assert(piece_mark(ps[n]) == piece_mark(qs[n]));
        crate::btep::lemma_be64(ps[n].id as u64);
        crate::btep::lemma_be64(qs[n].id as u64);
        crate::btep::lemma_be64(ps[n].text.start() as u64);
        crate::btep::lemma_be64(ps[n].text.end() as u64);
        assert(a.len() == b.len());
        assert(whole == elems_encoding(i1) + a);
        assert(elems_encoding(qs) == elems_encoding(i2) + b);
        let l = elems_encoding(i1).len() as int;
        assert(elems_encoding(i2).len() == l);
        assert(elems_encoding(i1) =~= whole.take(l));
        assert(elems_encoding(i2) =~= whole.take(l));
        assert(a =~= whole.skip(l));
        assert(b =~= whole.skip(l));
        let at = buf_encoding(ps[n].buf).len() as int;
        assert(a.subrange(at, at + 8) =~= be64(ps[n].id as u64));
        assert(b.subrange(at, at + 8) =~= be64(qs[n].id as u64));
        lemma_elems_ids(i1, i2);
        assert forall|k: int| 0 <= k < ps.len() implies (#[trigger] ps[k]).id == qs[k].id by {
            if k < n {
                assert(i1[k] == ps[k]);
                assert(i2[k] == qs[k]);
            }
        }
    }
}

/// Pieces that each read the same characters read the same characters together.
proof fn lemma_concat_same_text(ps: Seq<TableElem>, qs: Seq<TableElem>)
    requires
        ps.len() == qs.len(),
        forall|k: int| 0 <= k < ps.len() ==> (#[trigger] ps[k]).text.text() == qs[k].text.text(),
    ensures
        crate::piece::concat_text(ps) == crate::piece::concat_text(qs),
    decreases ps.len(),
{
    if ps.len() > 0 {
        let i1 = ps.drop_last();
        let i2 = qs.drop_last();
        assert forall|k: int| 0 <= k < i1.len() implies (#[trigger] i1[k]).text.text()
            == i2[k].text.text() by {
            assert(ps[k].text.text() == qs[k].text.text());
        }
        lemma_concat_same_text(i1, i2);
        assert(ps.last().text.text() == qs.last().text.text());
    }
}

/// Two well-formed tables with the same encoding hold the same bytes and counters in their
/// buffers.
#[verifier::spinoff_prover]
proof fn lemma_same_encoding_buffers(p: Piece, q: Piece)
    requires
        p.wf(),
        q.wf(),
        p.buffers.original.1@.len() <= isize::MAX,
        q.buffers.original.1@.len() <= isize::MAX,
        forall|i: int|
            0 <= i < p.buffers.clients@.len() ==> (#[trigger] p.buffers.clients@[i]).1@.len()
                <= isize::MAX,
        forall|i: int|
            0 <= i < q.buffers.clients@.len() ==> (#[trigger] q.buffers.clients@[i]).1@.len()
                <= isize::MAX,
        p.pieces().len() <= usize::MAX,
        q.pieces().len() <= usize::MAX,
        piece_encoding(p) == piece_encoding(q),
    ensures
        p.buffers.original.1@ == q.buffers.original.1@,
        p.buffers.original.0.value() == q.buffers.original.0.value(),
        p.buffers.clients@.len() == q.buffers.clients@.len(),
        forall|i: int|
            0 <= i < p.buffers.clients@.len() ==> (#[trigger] p.buffers.clients@[i]).1@
                == q.buffers.clients@[i].1@ && p.buffers.clients@[i].0.value()
                == q.buffers.clients@[i].0.value(),
{
    let d = piece_encoding(p);
    assert(d + Seq::<u8>::empty() =~= d);
    law_piece_encoding_parses(p, Seq::<u8>::empty());
    law_piece_encoding_parses(q, Seq::<u8>::empty());
    let bp = p.buffers;
    let bq = q.buffers;
    let cs = bp.clients@;
    let cs2 = bq.clients@;
    assert(client_bytes(cs) == client_bytes(cs2));
    assert(cs.len() == client_bytes(cs).len());
    assert(cs2.len() == client_bytes(cs2).len());
    assert forall|i: int| 0 <= i < cs.len() implies (#[trigger] cs[i]).1@ == cs2[i].1@ by {
        assert(client_bytes(cs)[i] == cs[i].1@);
        assert(client_bytes(cs2)[i] == cs2[i].1@);
    }
    let oc = bp.original.0.value();
    let oc2 = bq.original.0.value();
    bp.original.0.lemma_value_bound();
    bq.original.0.lemma_value_bound();
    crate::btep::lemma_be64(oc as u64);
    crate::btep::lemma_be64(oc2 as u64);
    let orig = bp.original.1@;
    let ce = clients_encoding(cs);
    let ce2 = clients_encoding(cs2);
    lemma_clients_encoding_len(cs, cs2);
    let ps = p.pieces();
    let qs = q.pieces();
    let nn = ps.len() as u64;
    let nn2 = qs.len() as u64;
    assert(d =~= be64(oc as u64) + orig + ce + seq![0xffu8] + be64(nn) + elems_encoding(ps));
    assert(d =~= be64(oc2 as u64) + orig + ce2 + seq![0xffu8] + be64(nn2) + elems_encoding(qs));
    assert(be64(oc as u64) =~= d.take(8));
    assert(be64(oc2 as u64) =~= d.take(8));
    let h = 8 + orig.len() as int;
    assert(ce =~= d.subrange(h, h + ce.len()));
    assert(ce2 =~= d.subrange(h, h + ce.len()));
    lemma_clients_counters(cs, cs2);
}

/// Two well-formed tables with the same encoding have pieces with the same markings, starts and
/// ends, in the same order.
#[verifier::spinoff_prover]
proof fn lemma_same_encoding_marks(p: Piece, q: Piece)
    requires
        p.wf(),
        q.wf(),
        p.buffers.original.1@.len() <= isize::MAX,
        q.buffers.original.1@.len() <= isize::MAX,
        forall|i: int|
            0 <= i < p.buffers.clients@.len() ==> (#[trigger] p.buffers.clients@[i]).1@.len()
                <= isize::MAX,
        forall|i: int|
            0 <= i < q.buffers.clients@.len() ==> (#[trigger] q.buffers.clients@[i]).1@.len()
                <= isize::MAX,
        p.pieces().len() <= usize::MAX,
        q.pieces().len() <= usize::MAX,
        piece_encoding(p) == piece_encoding(q),
    ensures
        p.pieces().len() == q.pieces().len(),
        forall|k: int|
            0 <= k < p.pieces().len() ==> piece_mark(#[trigger] p.pieces()[k]) == piece_mark(
                q.pieces()[k],
            ),
{
    let d = piece_encoding(p);
    assert(d + Seq::<u8>::empty() =~= d);
    law_piece_encoding_parses(p, Seq::<u8>::empty());
    law_piece_encoding_parses(q, Seq::<u8>::empty());
    let ps = p.pieces();
    let qs = q.pieces();
    assert(table_marks(p) == table_marks(q));
    assert(ps.len() == table_marks(p).len());
    assert(qs.len() == table_marks(q).len());
    assert forall|k: int| 0 <= k < ps.len() implies piece_mark(#[trigger] ps[k]) == piece_mark(
        qs[k],
    ) by {
        assert(table_marks(p)[k] == piece_mark(ps[k]));
        assert(table_marks(q)[k] == piece_mark(qs[k]));
    }
}

/// Two tables with the same encoding, the same original buffer and counter, and client buffers
/// holding the same bytes have the same encodings of their pieces.
proof fn lemma_same_encoding_elems(p: Piece, q: Piece)
    requires
        piece_encoding(p) == piece_encoding(q),
        p.buffers.original.1@ == q.buffers.original.1@,
        p.buffers.original.0.value() == q.buffers.original.0.value(),
        p.pieces().len() == q.pieces().len(),
        client_bytes(p.buffers.clients@) == client_bytes(q.buffers.clients@),
    ensures
        elems_encoding(p.pieces()) == elems_encoding(q.pieces()),
{
    let d = piece_encoding(p);
    let cs = p.buffers.clients@;
    let cs2 = q.buffers.clients@;
    lemma_clients_encoding_len(cs, cs2);
    let orig = p.buffers.original.1@;
    let ce = clients_encoding(cs);
    let ce2 = clients_encoding(cs2);
    let ps = p.pieces();
    let qs = q.pieces();
    let e0: int = 8 + orig.len() as int + ce.len() as int + 9;
    let oc = p.buffers.original.0.value() as u64;
    assert(d =~= be64(oc) + orig + ce + seq![0xffu8] + be64(ps.len() as u64) + elems_encoding(ps));
    assert(d =~= be64(oc) + orig + ce2 + seq![0xffu8] + be64(qs.len() as u64) + elems_encoding(qs));
    assert(elems_encoding(ps) =~= d.skip(e0));
    assert(elems_encoding(qs) =~= d.skip(e0));
}

/// Two well-formed tables with the same encoding hold the same pieces in the same order, with
/// the same markings, ids, starts and ends.
proof fn lemma_same_encoding_pieces(p: Piece, q: Piece)
    requires
        p.wf(),
        q.wf(),
        p.buffers.original.1@.len() <= isize::MAX,
        q.buffers.original.1@.len() <= isize::MAX,
        forall|i: int|
            0 <= i < p.buffers.clients@.len() ==> (#[trigger] p.buffers.clients@[i]).1@.len()
                <= isize::MAX,
        forall|i: int|
            0 <= i < q.buffers.clients@.len() ==> (#[trigger] q.buffers.clients@[i]).1@.len()
                <= isize::MAX,
        p.pieces().len() <= usize::MAX,
        q.pieces().len() <= usize::MAX,
        piece_encoding(p) == piece_encoding(q),
    ensures
        p.pieces().len() == q.pieces().len(),
        forall|k: int|
            0 <= k < p.pieces().len() ==> piece_mark(#[trigger] p.pieces()[k]) == piece_mark(
                q.pieces()[k],
            ) && p.pieces()[k].id == q.pieces()[k].id,
{
    lemma_same_encoding_buffers(p, q);
    lemma_same_encoding_marks(p, q);
    let cs = p.buffers.clients@;
    let cs2 = q.buffers.clients@;
    assert(client_bytes(cs) =~= client_bytes(cs2)) by {
        assert forall|i: int| 0 <= i < cs.len() implies #[trigger] client_bytes(cs)[i]
            == client_bytes(cs2)[i] by {
            assert(cs[i].1@ == cs2[i].1@);
        }
    }
    lemma_same_encoding_elems(p, q);
    lemma_elems_ids(p.pieces(), q.pieces());
}

/// A piece table's encoding determines it: two well-formed tables with the same encoding hold
/// the same bytes and counters in their buffers, and the same pieces in the same order, each
/// with its marking, id, start and end; so they hold the same text.
pub proof fn law_piece_encoding_injective(p: Piece, q: Piece)
    requires
        p.wf(),
        q.wf(),
        p.buffers.original.1@.len() <= isize::MAX,
        q.buffers.original.1@.len() <= isize::MAX,
        forall|i: int|
            0 <= i < p.buffers.clients@.len() ==> (#[trigger] p.buffers.clients@[i]).1@.len()
                <= isize::MAX,
        forall|i: int|
            0 <= i < q.buffers.clients@.len() ==> (#[trigger] q.buffers.clients@[i]).1@.len()
                <= isize::MAX,
        p.pieces().len() <= usize::MAX,
        q.pieces().len() <= usize::MAX,
        piece_encoding(p) == piece_encoding(q),
    ensures
        p.buffers.original.1@ == q.buffers.original.1@,
        p.buffers.original.0.value() == q.buffers.original.0.value(),
        p.buffers.clients@.len() == q.buffers.clients@.len(),
        forall|i: int|
            0 <= i < p.buffers.clients@.len() ==> (#[trigger] p.buffers.clients@[i]).1@
                == q.buffers.clients@[i].1@ && p.buffers.clients@[i].0.value()
                == q.buffers.clients@[i].0.value(),
        p.pieces().len() == q.pieces().len(),
        forall|k: int|
            0 <= k < p.pieces().len() ==> piece_mark(#[trigger] p.pieces()[k]) == piece_mark(
                q.pieces()[k],
            ) && p.pieces()[k].id == q.pieces()[k].id,
        p.text() == q.text(),
{
    lemma_same_encoding_buffers(p, q);
    lemma_same_encoding_pieces(p, q);
    let bp = p.buffers;
    let bq = q.buffers;
    let ps = p.pieces();
    let qs = q.pieces();
    assert forall|k: int| 0 <= k < ps.len() implies (#[trigger] ps[k]).text.text()
        == qs[k].text.text() by {
        let e = ps[k];
        let f = qs[k];
        assert(piece_mark(e) == piece_mark(f));
        assert(piece_in_buffers(e, bp) && piece_in_buffers(f, bq));
        match e.buf {
            None => {},
            Some((b, _)) => {
                assert(bp.clients@[b as int].1@ == bq.clients@[b as int].1@);
            },
        }
        assert(bp.buffer_of(e.buf) == bq.buffer_of(f.buf));
        let src = bp.buffer_of(e.buf);
        assert(e.text.bytes() =~= src.subrange(e.text.start() as int, e.text.end() as int)) by {
            assert(src.subrange(0, e.text.buffer().len() as int) == e.text.buffer());
        }
        assert(f.text.bytes() =~= src.subrange(f.text.start() as int, f.text.end() as int)) by {
            assert(bq.buffer_of(f.buf).subrange(0, f.text.buffer().len() as int) == f.text.buffer());
        }
    }
    lemma_concat_same_text(ps, qs);
}

/// A piece table sent and then read back, from the front of whatever follows it, holds the
/// same bytes and counters in its buffers and the same pieces as the table sent, and takes
/// exactly the bytes of its encoding.
pub proof fn law_piece_read_back(p: Piece, q: Piece, rest: Seq<u8>, n: int)
    requires
        p.wf(),
        q.wf(),
        p.buffers.original.1@.len() <= isize::MAX,
        q.buffers.original.1@.len() <= isize::MAX,
        forall|i: int|
            0 <= i < p.buffers.clients@.len() ==> (#[trigger] p.buffers.clients@[i]).1@.len()
                <= isize::MAX,
        forall|i: int|
            0 <= i < q.buffers.clients@.len() ==> (#[trigger] q.buffers.clients@[i]).1@.len()
                <= isize::MAX,
        p.pieces().len() <= usize::MAX,
        q.pieces().len() <= usize::MAX,
        0 <= n <= piece_encoding(p).len() + rest.len(),
        (piece_encoding(p) + rest).take(n) == piece_encoding(q),
    ensures
        n == piece_encoding(p).len(),
        piece_encoding(q) == piece_encoding(p),
        q.buffers.original.1@ == p.buffers.original.1@,
        q.buffers.original.0.value() == p.buffers.original.0.value(),
        q.buffers.clients@.len() == p.buffers.clients@.len(),
        forall|i: int|
            0 <= i < p.buffers.clients@.len() ==> (#[trigger] q.buffers.clients@[i]).1@
                == p.buffers.clients@[i].1@ && q.buffers.clients@[i].0.value()
                == p.buffers.clients@[i].0.value(),
        q.pieces().len() == p.pieces().len(),
        forall|k: int|
            0 <= k < p.pieces().len() ==> piece_mark(#[trigger] q.pieces()[k]) == piece_mark(
                p.pieces()[k],
            ) && q.pieces()[k].id == p.pieces()[k].id,
        q.text() == p.text(),
{
    let d = piece_encoding(p) + rest;
    assert(d =~= piece_encoding(q) + d.skip(n));
    law_piece_encoding_parses(p, rest);
    law_piece_encoding_parses(q, d.skip(n));
    assert(n == piece_encoding(q).len());
    assert(piece_encoding(q) =~= d.take(n));
    assert(piece_encoding(p) =~= d.take(piece_encoding(p).len() as int));
    law_piece_encoding_injective(q, p);
}

} // verus!
