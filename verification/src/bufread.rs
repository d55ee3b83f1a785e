//! Reading UTF-8 text off the front of a byte stream, up to the first byte that cannot start a
//! character.
use vstd::prelude::*;
use vstd::string::StringExecFns;
use vstd::string::StringSliceAdditionalSpecFns;
use vstd::utf8::*;

verus! {

broadcast use vstd::seq::group_seq_axioms;

/// A byte that cannot start a character: a continuation byte, or one above every leading byte.
pub open spec fn stop_byte(b: u8) -> bool {
    is_continuation_byte(b) || b >= 0xf8
}

/// The number of bytes of the character that the leading byte `b` starts, as its leading bits
/// tell.
pub open spec fn lead_width(b: u8) -> int {
    if b <= 0x7f {
        1
    } else if b <= 0xdf {
        2
    } else if b <= 0xef {
        3
    } else {
        4
    }
}

/// The first character of valid UTF-8 is valid UTF-8 on its own.
proof fn lemma_first_char_valid(t: Seq<u8>)
    requires
        valid_utf8(t),
        t.len() > 0,
    ensures
        length_of_first_scalar(t) <= t.len(),
        valid_utf8(t.take(length_of_first_scalar(t))),
{
    let w = length_of_first_scalar(t);
    let u = t.take(w);
    assert(valid_first_scalar(t));
    assert(forall|k: int| 0 <= k < w ==> u[k] == t[k]);
    assert(valid_first_scalar(u));
    assert(pop_first_scalar(u) =~= Seq::<u8>::empty());
    reveal_with_fuel(valid_utf8, 2);
}

/// Past a valid prefix of `d` that ends at `i`, where `d[i]` leads a character that `d` does
/// not hold in full or that is not valid, no longer prefix of `d` is valid; and no prefix of `d`
/// that is valid is followed by a byte that cannot start a character.
proof fn lemma_scan_blocked(d: Seq<u8>, i: int)
    requires
        0 <= i < d.len(),
        valid_utf8(d.take(i)),
        !stop_byte(d[i]),
        i + lead_width(d[i]) > d.len() || !valid_utf8(d.subrange(i, i + lead_width(d[i]))),
    ensures
        forall|m: int|
            0 <= m <= d.len() && valid_utf8(#[trigger] d.take(m)) ==> m < d.len() && !stop_byte(
                d[m],
            ),
{
    assert forall|m: int| 0 <= m <= d.len() && valid_utf8(#[trigger] d.take(m)) implies m < d.len()
        && !stop_byte(d[m]) by {
        if m > i {
            let whole = d.take(m);
            assert(whole.subrange(0, i) =~= d.take(i));
            crate::encoding::lemma_prefix_boundary(whole, i);
            valid_utf8_split(whole, i);
            let t = whole.subrange(i, m);
            assert(t.len() > 0);
            lemma_first_char_valid(t);
            assert(t[0] == d[i]);
            let w = length_of_first_scalar(t);
            assert(w == lead_width(d[i]));
            assert(t.take(w) =~= d.subrange(i, i + w));
            assert(false);
        } else if m < i {
            let pre = d.take(i);
            assert(pre.subrange(0, m) =~= d.take(m));
            crate::encoding::lemma_prefix_boundary(pre, m);
            is_char_boundary_iff_is_leading_byte(pre, m);
            assert(pre[m] == d[m]);
        }
    }
}

/// The text at the front of `d` ends at `m`: the bytes before `m` are valid UTF-8 and `d[m]`
/// cannot start a character.
pub open spec fn text_ends_at(d: Seq<u8>, m: int) -> bool {
    &&& 0 <= m < d.len()
    &&& valid_utf8(d.take(m))
    &&& stop_byte(d[m])
}

/// Inside a valid prefix of `d`, every valid prefix is followed by a byte that starts a
/// character.
pub proof fn lemma_no_stop_inside(d: Seq<u8>, m: int, k: int)
    requires
        0 <= m < k <= d.len(),
        valid_utf8(d.take(m)),
        valid_utf8(d.take(k)),
    ensures
        !stop_byte(d[m]),
{
    let pre = d.take(k);
    assert(pre.subrange(0, m) =~= d.take(m));
    crate::encoding::lemma_prefix_boundary(pre, m);
    is_char_boundary_iff_is_leading_byte(pre, m);
    assert(pre[m] == d[m]);
}

/// The text at the front of `d` ends at one place at most.
pub proof fn lemma_text_end_unique(d: Seq<u8>, m1: int, m2: int)
    requires
        text_ends_at(d, m1),
        text_ends_at(d, m2),
    ensures
        m1 == m2,
{
    if m1 < m2 {
        lemma_no_stop_inside(d, m1, m2);
    } else if m2 < m1 {
        lemma_no_stop_inside(d, m2, m1);
    }
}

/// Reads characters off the front of `data` into `buffer` until a byte that cannot start a
/// character, or the end. Returns the byte it stopped at (`None` at the end) and the number of
/// bytes taken, that byte included; or `None` when a character is cut off by the end or is not
/// valid.
pub fn read_valid_str(data: &[u8], buffer: &mut String) -> (r: Option<(Option<u8>, usize)>)
    ensures
        r matches Some((None, n)) ==> n == data@.len() && valid_utf8(data@) && final(buffer)@
            == old(buffer)@ + decode_utf8(data@),
        r matches Some((Some(b), n)) ==> {
            &&& 1 <= n <= data@.len()
            &&& valid_utf8(data@.take(n - 1))
            &&& data@[n - 1] == b
            &&& stop_byte(b)
            &&& final(buffer)@ == old(buffer)@ + decode_utf8(data@.take(n - 1))
        },
        r is None ==> forall|m: int|
            0 <= m <= data@.len() && valid_utf8(#[trigger] data@.take(m)) ==> m < data@.len()
                && !stop_byte(data@[m]),
{
    let mut i: usize = 0;
    proof {
        assert(data@.take(0) =~= Seq::<u8>::empty());
        crate::encoding::lemma_empty_utf8();
        assert(old(buffer)@ + Seq::<char>::empty() =~= old(buffer)@);
    }
    while i < data.len()
        invariant
            i <= data@.len(),
            valid_utf8(data@.take(i as int)),
            buffer@ == old(buffer)@ + decode_utf8(data@.take(i as int)),
        decreases data@.len() - i,
    {
        let b = data[i];
        if (0x80 <= b && b <= 0xbf) || b >= 0xf8 {
            proof {
                assert(data@.take(i + 1 - 1) =~= data@.take(i as int));
            }
            return Some((Some(b), i + 1));
        }
        let w: usize = if b <= 0x7f {
            1
        } else if b <= 0xdf {
            2
        } else if b <= 0xef {
            3
        } else {
            4
        };
        if w > data.len() - i {
            proof {
                lemma_scan_blocked(data@, i as int);
            }
            return None;
        }
        let chunk = &data[i..i + w];
        match crate::append_only_str::str_from_utf8(chunk) {
            Some(s) => {
                let ghost before = buffer@;
                buffer.append(s);
                proof {
                    encode_utf8_decode_utf8(s@);
                    crate::encoding::lemma_decode_concat(data@.take(i as int), chunk@);
                    assert(data@.take(i + w) =~= data@.take(i as int) + chunk@);
                    assert(buffer@ =~= old(buffer)@ + decode_utf8(data@.take(i + w)));
                }
                i = i + w;
            },
            None => {
                proof {
                    lemma_scan_blocked(data@, i as int);
                }
                return None;
            },
        }
    }
    proof {
        assert(data@.take(i as int) =~= data@);
    }
    Some((None, i))
}

/// Reading valid text off the front of a byte source.
pub trait BufReaderExt {
    /// Reads characters into `buffer` until a byte that cannot start a character, or the end;
    /// see `read_valid_str`.
    fn read_valid_str(&self, buffer: &mut String) -> Option<(Option<u8>, usize)>;
}

impl BufReaderExt for [u8] {
    fn read_valid_str(&self, buffer: &mut String) -> (r: Option<(Option<u8>, usize)>)
        ensures
            r matches Some((None, n)) ==> n == self@.len() && valid_utf8(self@) && final(buffer)@
                == old(buffer)@ + decode_utf8(self@),
            r matches Some((Some(b), n)) ==> {
                &&& 1 <= n <= self@.len()
                &&& valid_utf8(self@.take(n - 1))
                &&& self@[n - 1] == b
                &&& stop_byte(b)
                &&& final(buffer)@ == old(buffer)@ + decode_utf8(self@.take(n - 1))
            },
            r is None ==> forall|m: int|
                0 <= m <= self@.len() && valid_utf8(#[trigger] self@.take(m)) ==> m < self@.len()
                    && !stop_byte(self@[m]),
    {
        read_valid_str(self, buffer)
    }
}

} // verus!
