//! UTF-8 facts and helpers used by the byte-level string types.
use vstd::prelude::*;
use vstd::utf8::*;

verus! {

broadcast use vstd::seq::group_seq_axioms;

/// The UTF-8 encoding of a concatenation is the concatenation of the encodings.
pub proof fn lemma_encode_concat(a: Seq<char>, b: Seq<char>)
    ensures
        encode_utf8(a + b) == encode_utf8(a) + encode_utf8(b),
    decreases a.len(),
{
    if a.len() == 0 {
        assert(a + b =~= b);
        assert(encode_utf8(a) =~= Seq::<u8>::empty());
        assert(encode_utf8(a) + encode_utf8(b) =~= encode_utf8(b));
    } else {
        assert((a + b).drop_first() =~= a.drop_first() + b);
        assert((a + b)[0] == a[0]);
        lemma_encode_concat(a.drop_first(), b);
        assert(encode_utf8(a + b) =~= encode_scalar(a[0] as u32) + encode_utf8(a.drop_first() + b));
        assert(encode_utf8(a) + encode_utf8(b) =~= encode_scalar(a[0] as u32) + (encode_utf8(
            a.drop_first(),
        ) + encode_utf8(b)));
    }
}

/// The seam between two valid UTF-8 sequences is a character boundary of their concatenation.
pub proof fn lemma_boundary_at_seam(a: Seq<u8>, b: Seq<u8>)
    requires
        valid_utf8(a),
        valid_utf8(b),
    ensures
        valid_utf8(a + b),
        is_char_boundary(a + b, a.len() as int),
    decreases a.len(),
{
    valid_utf8_concat(a, b);
    if a.len() == 0 {
    } else {
        let rest = pop_first_scalar(a);
        assert(pop_first_scalar(a + b) =~= rest + b);
        assert(length_of_first_scalar(a + b) == length_of_first_scalar(a));
        lemma_boundary_at_seam(rest, b);
        assert(rest.len() == a.len() - length_of_first_scalar(a));
    }
}

/// Decoding a concatenation of valid sequences decodes each part.
pub proof fn lemma_decode_concat(a: Seq<u8>, b: Seq<u8>)
    requires
        valid_utf8(a),
        valid_utf8(b),
    ensures
        valid_utf8(a + b),
        decode_utf8(a + b) == decode_utf8(a) + decode_utf8(b),
{
    lemma_boundary_at_seam(a, b);
    decode_utf8_split(a + b, a.len() as int);
    assert((a + b).subrange(0, a.len() as int) =~= a);
    assert((a + b).subrange(a.len() as int, (a + b).len() as int) =~= b);
}

/// The empty byte sequence is valid UTF-8 and decodes to nothing.
pub proof fn lemma_empty_utf8()
    ensures
        valid_utf8(Seq::<u8>::empty()),
        decode_utf8(Seq::<u8>::empty()) == Seq::<char>::empty(),
{
}

/// A sub-range between two character boundaries of a valid sequence is valid.
pub proof fn lemma_valid_between(bytes: Seq<u8>, i: int, j: int)
    requires
        valid_utf8(bytes),
        0 <= i <= j <= bytes.len(),
        is_char_boundary(bytes, i),
        is_char_boundary(bytes, j),
    ensures
        valid_utf8(bytes.subrange(i, j)),
        is_char_boundary(bytes.subrange(0, j), i),
{
    valid_utf8_split(bytes, j);
    let pre = bytes.subrange(0, j);
    lemma_boundary_prefix(bytes, j, i);
    valid_utf8_split(pre, i);
    assert(pre.subrange(i, pre.len() as int) =~= bytes.subrange(i, j));
}

/// Character boundaries of a sequence below a boundary `j` are boundaries of its prefix up to `j`.
pub proof fn lemma_boundary_prefix(bytes: Seq<u8>, j: int, i: int)
    requires
        valid_utf8(bytes),
        0 <= i <= j <= bytes.len(),
        is_char_boundary(bytes, i),
        is_char_boundary(bytes, j),
    ensures
        valid_utf8(bytes.subrange(0, j)),
        is_char_boundary(bytes.subrange(0, j), i),
    decreases bytes.len(),
{
    valid_utf8_split(bytes, j);
    if i == 0 {
    } else {
        let pre = bytes.subrange(0, j);
        let l = length_of_first_scalar(bytes);
        assert(l <= i) by {
            reveal_with_fuel(is_char_boundary, 2);
        }
        assert(pre.len() > 0);
        assert(pre[0] == bytes[0]);
        assert(l <= j);
        // the first scalar of the prefix is the first scalar of the sequence
        assert(take_first_scalar(pre) =~= take_first_scalar(bytes));
        assert(length_of_first_scalar(pre) == l);
        assert(is_char_boundary(pop_first_scalar(bytes), i - l));
        assert(is_char_boundary(pop_first_scalar(bytes), j - l));
        lemma_boundary_prefix(pop_first_scalar(bytes), j - l, i - l);
        assert(pop_first_scalar(bytes).subrange(0, j - l) =~= pop_first_scalar(pre));
    }
}

/// `char::from_u32`: `Some` exactly when the value is a Unicode scalar, and then that scalar.
#[verifier::external_body]
pub(crate) fn char_from_u32(v: u32) -> (r: Option<char>)
    ensures
        r is Some <==> is_scalar(v),
        r matches Some(c) ==> c == v as char,
{
    char::from_u32(v)
}

/// Decodes the character whose encoding starts at byte `i`; returns it and its encoded width.
pub fn decode_char_at(bytes: &[u8], i: usize) -> (res: (char, usize))
    requires
        i < bytes@.len(),
        valid_utf8(bytes@.subrange(i as int, bytes@.len() as int)),
    ensures
        ({
            let sub = bytes@.subrange(i as int, bytes@.len() as int);
            &&& res.0 == decode_first_scalar(sub) as char
            &&& res.1 == length_of_first_scalar(sub)
            &&& 1 <= res.1 <= 4
            &&& i + res.1 <= bytes@.len()
            &&& valid_utf8(pop_first_scalar(sub))
            &&& decode_utf8(sub) == seq![res.0] + decode_utf8(pop_first_scalar(sub))
        }),
{
    let ghost sub = bytes@.subrange(i as int, bytes@.len() as int);
    assert(sub.len() > 0);
    assert(valid_first_scalar(sub));
    let b0 = bytes[i];
    assert(b0 == sub[0]);
    let v: u32;
    let w: usize;
    if b0 <= 0x7f {
        v = (b0 & 0x7F) as u32;
        w = 1;
        assert(v <= 0x7f) by (bit_vector)
            requires v == (b0 & 0x7F) as u32;
    } else if 0xc0 <= b0 && b0 <= 0xdf {
        let b1 = bytes[i + 1];
        assert(b1 == sub[1]);
        v = (((b0 & 0x1F) as u32) << 6) | ((b1 & 0x3f) as u32);
        w = 2;
        assert(v <= 0x7ff) by (bit_vector)
            requires v == (((b0 & 0x1F) as u32) << 6) | ((b1 & 0x3f) as u32);
    } else if 0xe0 <= b0 && b0 <= 0xef {
        let b1 = bytes[i + 1];
        let b2 = bytes[i + 2];
        assert(b1 == sub[1] && b2 == sub[2]);
        v = (((b0 & 0x0F) as u32) << 12) | (((b1 & 0x3f) as u32) << 6) | ((b2 & 0x3f) as u32);
        w = 3;
        assert(v <= 0xffff) by (bit_vector)
            requires v == (((b0 & 0x0F) as u32) << 12) | (((b1 & 0x3f) as u32) << 6) | ((b2 & 0x3f) as u32);
    } else {
        let b1 = bytes[i + 1];
        let b2 = bytes[i + 2];
        let b3 = bytes[i + 3];
        assert(b1 == sub[1] && b2 == sub[2] && b3 == sub[3]);
        v = (((b0 & 0x07) as u32) << 18) | (((b1 & 0x3f) as u32) << 12) | (((b2 & 0x3f) as u32)
            << 6) | ((b3 & 0x3f) as u32);
        w = 4;
    }
    assert(v == decode_first_scalar(sub));
    assert(is_scalar(v));
    let c = char_from_u32(v).unwrap();
    proof {
        vstd::utf8::decode_utf8_first_scalar(sub);
        assert(pop_first_scalar(sub).len() < sub.len());
    }
    (c, w)
}


/// The number of bytes the UTF-8 encoding of `c` takes (what `char::len_utf8` returns).
pub fn char_utf8_len(c: char) -> (r: usize)
    ensures
        r == encode_utf8(seq![c]).len(),
        1 <= r <= 4,
{
    let v = c as u32;
    proof {
        char_is_scalar(c);
        assert(encode_utf8(seq![c]) =~= encode_scalar(c as u32) + encode_utf8(seq![c].drop_first()));
        assert(seq![c].drop_first() =~= Seq::<char>::empty());
        assert(encode_utf8(seq![c]) =~= encode_scalar(c as u32));
    }
    if v <= 0x7f {
        1
    } else if v <= 0x7ff {
        2
    } else if v <= 0xffff {
        3
    } else {
        4
    }
}

/// The UTF-8 encoding of a single character.
pub fn encode_char(c: char) -> (r: Vec<u8>)
    ensures
        r@ == encode_utf8(seq![c]),
{
    let v = c as u32;
    let mut r: Vec<u8> = Vec::new();
    proof {
        char_is_scalar(c);
        assert(encode_utf8(seq![c]) =~= encode_scalar(c as u32) + encode_utf8(seq![c].drop_first()));
        assert(seq![c].drop_first() =~= Seq::<char>::empty());
        assert(encode_utf8(seq![c]) =~= encode_scalar(c as u32));
    }
    if v <= 0x7f {
        r.push((v & 0x7F) as u8);
    } else if v <= 0x7ff {
        r.push(0xC0 | ((v >> 6) & 0x1F) as u8);
        r.push(0x80 | (v & 0x3F) as u8);
    } else if v <= 0xffff {
        r.push(0xE0 | ((v >> 12) & 0x0F) as u8);
        r.push(0x80 | ((v >> 6) & 0x3F) as u8);
        r.push(0x80 | (v & 0x3F) as u8);
    } else {
        r.push(0xF0 | ((v >> 18) & 0x7) as u8);
        r.push(0x80 | ((v >> 12) & 0x3F) as u8);
        r.push(0x80 | ((v >> 6) & 0x3F) as u8);
        r.push(0x80 | (v & 0x3F) as u8);
    }
    proof {
        assert(r@ =~= encode_scalar(v));
    }
    r
}

} // verus!

verus! {

/// A valid prefix of a valid sequence ends at one of its character boundaries.
pub proof fn lemma_prefix_boundary(whole: Seq<u8>, p: int)
    requires
        valid_utf8(whole),
        0 <= p <= whole.len(),
        valid_utf8(whole.subrange(0, p)),
    ensures
        is_char_boundary(whole, p),
    decreases whole.len(),
{
    if p == 0 {
    } else {
        let pre = whole.subrange(0, p);
        assert(pre[0] == whole[0]);
        let l = length_of_first_scalar(whole);
        assert(length_of_first_scalar(pre) == l);
        assert(l <= p) by {
            if p < 4 {
                assert(pre[0] == whole[0]);
            }
        }
        let rest = pop_first_scalar(whole);
        assert(pop_first_scalar(pre) =~= rest.subrange(0, p - l));
        lemma_prefix_boundary(rest, p - l);
    }
}

/// A character boundary of a valid prefix is a character boundary of the whole sequence.
pub proof fn lemma_boundary_extends(whole: Seq<u8>, p: int, i: int)
    requires
        valid_utf8(whole),
        0 <= i <= p <= whole.len(),
        valid_utf8(whole.subrange(0, p)),
        is_char_boundary(whole.subrange(0, p), i),
    ensures
        is_char_boundary(whole, i),
{
    let pre = whole.subrange(0, p);
    valid_utf8_split(pre, i);
    assert(pre.subrange(0, i) =~= whole.subrange(0, i));
    lemma_prefix_boundary(whole, i);
}

} // verus!
