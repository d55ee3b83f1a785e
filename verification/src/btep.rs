//! The binary protocol spoken between the server and its clients: numbers are big-endian, a
//! string is its length in bytes followed by its UTF-8 bytes, and a message starts with a tag
//! byte naming its kind.
use vstd::prelude::*;
use vstd::string::StringSliceAdditionalSpecFns;
use vstd::utf8::*;

use crate::utils::CursorPos;

verus! {

broadcast use vstd::seq::group_seq_axioms;

/// The big-endian bytes of a 64-bit number.
pub open spec fn be64(v: u64) -> Seq<u8> {
    seq![
        (v >> 56u64) as u8,
        (v >> 48u64) as u8,
        (v >> 40u64) as u8,
        (v >> 32u64) as u8,
        (v >> 24u64) as u8,
        (v >> 16u64) as u8,
        (v >> 8u64) as u8,
        v as u8,
    ]
}

/// The number whose big-endian bytes are the first eight of `b`.
pub open spec fn from_be64(b: Seq<u8>) -> u64 {
    ((b[0] as u64) << 56u64) | ((b[1] as u64) << 48u64) | ((b[2] as u64) << 40u64) | ((
    b[3] as u64) << 32u64) | ((b[4] as u64) << 24u64) | ((b[5] as u64) << 16u64) | ((b[6] as u64)
        << 8u64) | (b[7] as u64)
}

/// The big-endian bytes of a 32-bit number.
pub open spec fn be32(v: u32) -> Seq<u8> {
    seq![(v >> 24u32) as u8, (v >> 16u32) as u8, (v >> 8u32) as u8, v as u8]
}

/// The number whose big-endian bytes are the first four of `b`.
pub open spec fn from_be32(b: Seq<u8>) -> u32 {
    ((b[0] as u32) << 24u32) | ((b[1] as u32) << 16u32) | ((b[2] as u32) << 8u32) | (b[3] as u32)
}

/// Reading back the bytes of a 64-bit number gives the number.
pub proof fn lemma_be64(v: u64)
    ensures
        be64(v).len() == 8,
        from_be64(be64(v)) == v,
{
    let b = be64(v);
    assert(((((v >> 56u64) as u8) as u64) << 56u64) | ((((v >> 48u64) as u8) as u64) << 48u64) | ((
    ((v >> 40u64) as u8) as u64) << 40u64) | ((((v >> 32u64) as u8) as u64) << 32u64) | ((((v
        >> 24u64) as u8) as u64) << 24u64) | ((((v >> 16u64) as u8) as u64) << 16u64) | ((((v
        >> 8u64) as u8) as u64) << 8u64) | ((v as u8) as u64) == v) by (bit_vector);
}

/// Eight bytes are the big-endian bytes of the number they encode.
pub proof fn lemma_from_be64(b: Seq<u8>)
    requires
        b.len() == 8,
    ensures
        be64(from_be64(b)) == b,
{
    let (b0, b1, b2, b3, b4, b5, b6, b7) = (b[0], b[1], b[2], b[3], b[4], b[5], b[6], b[7]);
    let v = from_be64(b);
    assert(v == ((b0 as u64) << 56u64) | ((b1 as u64) << 48u64) | ((b2 as u64) << 40u64) | ((
    b3 as u64) << 32u64) | ((b4 as u64) << 24u64) | ((b5 as u64) << 16u64) | ((b6 as u64)
        << 8u64) | (b7 as u64));
    assert({
        let w = ((b0 as u64) << 56u64) | ((b1 as u64) << 48u64) | ((b2 as u64) << 40u64) | ((
        b3 as u64) << 32u64) | ((b4 as u64) << 24u64) | ((b5 as u64) << 16u64) | ((b6 as u64)
            << 8u64) | (b7 as u64);
        &&& (w >> 56u64) as u8 == b0
        &&& (w >> 48u64) as u8 == b1
        &&& (w >> 40u64) as u8 == b2
        &&& (w >> 32u64) as u8 == b3
        &&& (w >> 24u64) as u8 == b4
        &&& (w >> 16u64) as u8 == b5
        &&& (w >> 8u64) as u8 == b6
        &&& w as u8 == b7
    }) by (bit_vector);
    assert(be64(v) =~= b);
}

/// Reading back the bytes of a 32-bit number gives the number.
pub proof fn lemma_be32(v: u32)
    ensures
        be32(v).len() == 4,
        from_be32(be32(v)) == v,
{
    assert(((((v >> 24u32) as u8) as u32) << 24u32) | ((((v >> 16u32) as u8) as u32) << 16u32) | ((
    ((v >> 8u32) as u8) as u32) << 8u32) | ((v as u8) as u32) == v) by (bit_vector);
}

/// Four bytes are the big-endian bytes of the number they encode.
pub proof fn lemma_from_be32(b: Seq<u8>)
    requires
        b.len() == 4,
    ensures
        be32(from_be32(b)) == b,
{
    let (b0, b1, b2, b3) = (b[0], b[1], b[2], b[3]);
    let v = from_be32(b);
    assert(v == ((b0 as u32) << 24u32) | ((b1 as u32) << 16u32) | ((b2 as u32) << 8u32) | (
    b3 as u32));
    assert({
        let w = ((b0 as u32) << 24u32) | ((b1 as u32) << 16u32) | ((b2 as u32) << 8u32) | (
        b3 as u32);
        &&& (w >> 24u32) as u8 == b0
        &&& (w >> 16u32) as u8 == b1
        &&& (w >> 8u32) as u8 == b2
        &&& w as u8 == b3
    }) by (bit_vector);
    assert(be32(v) =~= b);
}

/// Appends the big-endian bytes of `v`.
pub fn push_u64(out: &mut Vec<u8>, v: u64)
    ensures
        final(out)@ == old(out)@ + be64(v),
{
    out.push((v >> 56u64) as u8);
    out.push((v >> 48u64) as u8);
    out.push((v >> 40u64) as u8);
    out.push((v >> 32u64) as u8);
    out.push((v >> 24u64) as u8);
    out.push((v >> 16u64) as u8);
    out.push((v >> 8u64) as u8);
    out.push(v as u8);
    proof {
        assert(out@ =~= old(out)@ + be64(v));
    }
}

/// Appends the big-endian bytes of `v`.
pub fn push_u32(out: &mut Vec<u8>, v: u32)
    ensures
        final(out)@ == old(out)@ + be32(v),
{
    out.push((v >> 24u32) as u8);
    out.push((v >> 16u32) as u8);
    out.push((v >> 8u32) as u8);
    out.push(v as u8);
    proof {
        assert(out@ =~= old(out)@ + be32(v));
    }
}

/// Appends all of `bytes`.
pub fn push_all(out: &mut Vec<u8>, bytes: &[u8])
    ensures
        final(out)@ == old(out)@ + bytes@,
{
    let mut i: usize = 0;
    while i < bytes.len()
        invariant
            i <= bytes@.len(),
            out@ == old(out)@ + bytes@.take(i as int),
        decreases bytes@.len() - i,
    {
        out.push(bytes[i]);
        i = i + 1;
        proof {
            assert(out@ =~= old(out)@ + bytes@.take(i as int));
        }
    }
    proof {
        assert(bytes@.take(i as int) =~= bytes@);
    }
}

/// The number whose big-endian bytes start at `data[at]`, when eight bytes are there.
pub fn read_u64(data: &[u8], at: usize) -> (r: Option<u64>)
    ensures
        r is Some <==> at + 8 <= data@.len(),
        r matches Some(v) ==> v == from_be64(data@.subrange(at as int, at + 8)),
{
    if data.len() < 8 || at > data.len() - 8 {
        return None;
    }
    let v = ((data[at] as u64) << 56u64) | ((data[at + 1] as u64) << 48u64) | ((data[at + 2] as u64)
        << 40u64) | ((data[at + 3] as u64) << 32u64) | ((data[at + 4] as u64) << 24u64) | ((data[at
        + 5] as u64) << 16u64) | ((data[at + 6] as u64) << 8u64) | (data[at + 7] as u64);
    Some(v)
}

/// The number whose big-endian bytes start at `data[at]`, when four bytes are there.
pub fn read_u32(data: &[u8], at: usize) -> (r: Option<u32>)
    ensures
        r is Some <==> at + 4 <= data@.len(),
        r matches Some(v) ==> v == from_be32(data@.subrange(at as int, at + 4)),
{
    if data.len() < 4 || at > data.len() - 4 {
        return None;
    }
    let v = ((data[at] as u32) << 24u32) | ((data[at + 1] as u32) << 16u32) | ((data[at + 2] as u32)
        << 8u32) | (data[at + 3] as u32);
    Some(v)
}

/// A position in memory read from the wire: the 64-bit number at `data[at]`, when it fits.
pub fn read_usize(data: &[u8], at: usize) -> (r: Option<usize>)
    ensures
        r is Some <==> at + 8 <= data@.len() && from_be64(data@.subrange(at as int, at + 8))
            <= usize::MAX,
        r matches Some(v) ==> v as u64 == from_be64(data@.subrange(at as int, at + 8)),
{
    match read_u64(data, at) {
        Some(v) => {
            if v <= usize::MAX as u64 {
                Some(v as usize)
            } else {
                None
            }
        },
        None => None,
    }
}

/// Encoding into the protocol's bytes.
pub trait Serialize {
    /// The bytes that encode the value.
    spec fn encoding(&self) -> Seq<u8>;

    /// Encodes the value.
    fn serialize(&self) -> (r: Vec<u8>)
        ensures
            r@ == self.encoding(),
    ;
}

/// Decoding from the protocol's bytes, the reverse of `Serialize`.
pub trait Deserialize: Serialize + Sized {
    /// Decodes a value from the front of `data`, returning it together with the number of bytes
    /// its encoding took, or `None` when `data` does not start with the encoding of a value.
    fn deserialize(data: &[u8]) -> (r: Option<(Self, usize)>)
        ensures
            r matches Some((v, n)) ==> n <= data@.len() && data@.take(n as int) == v.encoding(),
    ;
}

impl Serialize for usize {
    open spec fn encoding(&self) -> Seq<u8> {
        be64(*self as u64)
    }

    fn serialize(&self) -> (r: Vec<u8>) {
        let mut r = Vec::new();
        push_u64(&mut r, *self as u64);
        r
    }
}

impl Deserialize for usize {
    fn deserialize(data: &[u8]) -> (r: Option<(Self, usize)>)
        ensures
            r is Some <==> data@.len() >= 8 && from_be64(data@.take(8)) <= usize::MAX,
    {
        match read_usize(data, 0) {
            Some(v) => {
                proof {
                    assert(data@.subrange(0, 8) =~= data@.take(8));
                    lemma_from_be64(data@.take(8));
                }
                Some((v, 8))
            },
            None => {
                proof {
                    assert(data@.len() >= 8 ==> data@.subrange(0, 8) =~= data@.take(8));
                }
                None
            },
        }
    }
}

impl Serialize for char {
    open spec fn encoding(&self) -> Seq<u8> {
        be32(*self as u32)
    }

    fn serialize(&self) -> (r: Vec<u8>) {
        let mut r = Vec::new();
        push_u32(&mut r, *self as u32);
        r
    }
}

impl Deserialize for char {
    fn deserialize(data: &[u8]) -> (r: Option<(Self, usize)>)
        ensures
            r is Some <==> data@.len() >= 4 && is_scalar(from_be32(data@.take(4))),
    {
        match read_u32(data, 0) {
            Some(v) => {
                proof {
                    assert(data@.subrange(0, 4) =~= data@.take(4));
                }
                match crate::encoding::char_from_u32(v) {
                    Some(c) => {
                        proof {
                            lemma_from_be32(data@.take(4));
                            char_u32_cast(c, v);
                        }
                        Some((c, 4))
                    },
                    None => None,
                }
            },
            None => None,
        }
    }
}

impl Serialize for bool {
    open spec fn encoding(&self) -> Seq<u8> {
        seq![if *self { 1u8 } else { 0u8 }]
    }

    fn serialize(&self) -> (r: Vec<u8>) {
        let mut r = Vec::new();
        r.push(if *self { 1u8 } else { 0u8 });
        proof {
            assert(r@ =~= self.encoding());
        }
        r
    }
}

impl Deserialize for bool {
    fn deserialize(data: &[u8]) -> (r: Option<(Self, usize)>)
        ensures
            r is Some <==> data@.len() >= 1 && data@[0] <= 1,
    {
        if data.len() == 0 || data[0] > 1 {
            return None;
        }
        proof {
            assert(data@.take(1) =~= seq![data@[0]]);
        }
        Some((data[0] == 1, 1))
    }
}

impl Serialize for CursorPos {
    open spec fn encoding(&self) -> Seq<u8> {
        be64(self.row as u64) + be64(self.col as u64)
    }

    fn serialize(&self) -> (r: Vec<u8>) {
        let mut r = Vec::new();
        push_u64(&mut r, self.row as u64);
        push_u64(&mut r, self.col as u64);
        proof {
            assert(r@ =~= self.encoding());
        }
        r
    }
}

impl Deserialize for CursorPos {
    fn deserialize(data: &[u8]) -> (r: Option<(Self, usize)>)
        ensures
            r is Some <==> data@.len() >= 16 && from_be64(data@.take(8)) <= usize::MAX
                && from_be64(data@.subrange(8, 16)) <= usize::MAX,
    {
        proof {
            if data@.len() >= 8 {
                assert(data@.subrange(0, 8) =~= data@.take(8));
            }
        }
        let row = match read_usize(data, 0) {
            Some(v) => v,
            None => return None,
        };
        let col = match read_usize(data, 8) {
            Some(v) => v,
            None => return None,
        };
        proof {
            lemma_from_be64(data@.subrange(0, 8));
            lemma_from_be64(data@.subrange(8, 16));
            assert(data@.take(16) =~= data@.subrange(0, 8) + data@.subrange(8, 16));
        }
        Some((CursorPos { row, col }, 16))
    }
}

/// A terminal color, as a client picks one to be shown in.
#[derive(Debug, Clone, Copy, PartialEq, Eq, Structural)]
pub enum Color {
    /// The terminal's default color.
    Reset,
    /// Black.
    Black,
    /// Dark grey.
    DarkGrey,
    /// Light red.
    Red,
    /// Dark red.
    DarkRed,
    /// Light green.
    Green,
    /// Dark green.
    DarkGreen,
    /// Light yellow.
    Yellow,
    /// Dark yellow.
    DarkYellow,
    /// Light blue.
    Blue,
    /// Dark blue.
    DarkBlue,
    /// Light magenta.
    Magenta,
    /// Dark magenta.
    DarkMagenta,
    /// Light cyan.
    Cyan,
    /// Dark cyan.
    DarkCyan,
    /// White.
    White,
    /// Grey.
    Grey,
    /// A color given by its red, green and blue parts.
    Rgb { r: u8, g: u8, b: u8 },
    /// A color of the terminal's 256-color palette.
    AnsiValue(u8),
}

/// The tag byte of a named color, or 17 for `Rgb` and 18 for `AnsiValue`.
pub open spec fn color_tag(c: Color) -> u8 {
    match c {
        Color::Reset => 0,
        Color::Black => 1,
        Color::DarkGrey => 2,
        Color::Red => 3,
        Color::DarkRed => 4,
        Color::Green => 5,
        Color::DarkGreen => 6,
        Color::Yellow => 7,
        Color::DarkYellow => 8,
        Color::Blue => 9,
        Color::DarkBlue => 10,
        Color::Magenta => 11,
        Color::DarkMagenta => 12,
        Color::Cyan => 13,
        Color::DarkCyan => 14,
        Color::White => 15,
        Color::Grey => 16,
        Color::Rgb { .. } => 17,
        Color::AnsiValue(_) => 18,
    }
}

/// Whether `d` starts with the encoding of a color: a named color's tag, or the tag of a color
/// given by its parts followed by them.
pub open spec fn color_parses(d: Seq<u8>) -> bool {
    d.len() >= 1 && (d[0] <= 16 || (d[0] == 17 && d.len() >= 4) || (d[0] == 18 && d.len() >= 2))
}

impl Serialize for Color {
    open spec fn encoding(&self) -> Seq<u8> {
        match *self {
            Color::Rgb { r, g, b } => seq![17u8, r, g, b],
            Color::AnsiValue(x) => seq![18u8, x],
            _ => seq![color_tag(*self)],
        }
    }

    fn serialize(&self) -> (r: Vec<u8>) {
        let tag: u8 = match *self {
            Color::Reset => 0,
            Color::Black => 1,
            Color::DarkGrey => 2,
            Color::Red => 3,
            Color::DarkRed => 4,
            Color::Green => 5,
            Color::DarkGreen => 6,
            Color::Yellow => 7,
            Color::DarkYellow => 8,
            Color::Blue => 9,
            Color::DarkBlue => 10,
            Color::Magenta => 11,
            Color::DarkMagenta => 12,
            Color::Cyan => 13,
            Color::DarkCyan => 14,
            Color::White => 15,
            Color::Grey => 16,
            Color::Rgb { r, g, b } => {
                let out = vec![17u8, r, g, b];
                proof {
                    assert(out@ =~= self.encoding());
                }
                return out;
            },
            Color::AnsiValue(x) => {
                let out = vec![18u8, x];
                proof {
                    assert(out@ =~= self.encoding());
                }
                return out;
            },
        };
        let out = vec![tag];
        proof {
            assert(out@ =~= self.encoding());
        }
        out
    }
}

impl Deserialize for Color {
    fn deserialize(data: &[u8]) -> (r: Option<(Self, usize)>)
        ensures
            r is Some <==> color_parses(data@),
    {
        if data.len() == 0 {
            return None;
        }
        let t = data[0];
        if t <= 16 {
            let c = match t {
                0 => Color::Reset,
                1 => Color::Black,
                2 => Color::DarkGrey,
                3 => Color::Red,
                4 => Color::DarkRed,
                5 => Color::Green,
                6 => Color::DarkGreen,
                7 => Color::Yellow,
                8 => Color::DarkYellow,
                9 => Color::Blue,
                10 => Color::DarkBlue,
                11 => Color::Magenta,
                12 => Color::DarkMagenta,
                13 => Color::Cyan,
                14 => Color::DarkCyan,
                15 => Color::White,
                _ => Color::Grey,
            };
            proof {
                assert(data@.take(1) =~= seq![t]);
                assert(c.encoding() =~= seq![t]);
            }
            Some((c, 1))
        } else if t == 17 {
            if data.len() < 4 {
                return None;
            }
            let c = Color::Rgb { r: data[1], g: data[2], b: data[3] };
            proof {
                assert(data@.take(4) =~= c.encoding());
            }
            Some((c, 4))
        } else if t == 18 {
            if data.len() < 2 {
                return None;
            }
            let c = Color::AnsiValue(data[1]);
            proof {
                assert(data@.take(2) =~= c.encoding());
            }
            Some((c, 2))
        } else {
            None
        }
    }
}


/// The encoding of a string: its length in bytes, then its UTF-8 bytes.
pub open spec fn string_encoding(s: Seq<char>) -> Seq<u8> {
    be64(encode_utf8(s).len() as u64) + encode_utf8(s)
}

/// Whether `d` starts with the encoding of a string: a length, then that many bytes of valid
/// UTF-8.
pub open spec fn string_parses(d: Seq<u8>) -> bool {
    &&& d.len() >= 8
    &&& 8 + from_be64(d.take(8)) <= d.len()
    &&& valid_utf8(d.subrange(8, 8 + from_be64(d.take(8))))
}

/// Appends the encoding of the string `s`.
pub fn push_str_encoding(out: &mut Vec<u8>, s: &str)
    ensures
        final(out)@ == old(out)@ + string_encoding(s@),
{
    let bytes = s.as_bytes();
    push_u64(out, bytes.len() as u64);
    push_all(out, bytes);
    proof {
        assert(final(out)@ =~= old(out)@ + string_encoding(s@));
    }
}

/// Decodes a string from the front of `data`, returning it with the number of bytes taken.
pub fn read_string(data: &[u8]) -> (r: Option<(String, usize)>)
    ensures
        r is Some <==> string_parses(data@),
        r matches Some((v, n)) ==> n <= data@.len() && data@.take(n as int) == string_encoding(v@),
{
    let len = match read_u64(data, 0) {
        Some(v) => v,
        None => return None,
    };
    proof {
        assert(data@.subrange(0, 8) =~= data@.take(8));
    }
    if len > (data.len() - 8) as u64 {
        return None;
    }
    let end = 8 + len as usize;
    let bytes = &data[8..end];
    match crate::append_only_str::str_from_utf8(bytes) {
        Some(s) => {
            let v = s.to_owned();
            proof {
                lemma_from_be64(data@.take(8));
                encode_utf8_decode_utf8(s@);
                assert(data@.take(end as int) =~= data@.take(8) + bytes@);
            }
            Some((v, end))
        },
        None => None,
    }
}

/// Encoding a string and reading it back gives the string.
pub proof fn lemma_string_roundtrip(s: Seq<char>, rest: Seq<u8>)
    requires
        encode_utf8(s).len() <= u64::MAX,
    ensures
        string_parses(string_encoding(s) + rest),
        (string_encoding(s) + rest).take(8 + encode_utf8(s).len() as int) == string_encoding(s),
{
    let b = encode_utf8(s);
    let d = string_encoding(s) + rest;
    lemma_be64(b.len() as u64);
    assert(d.take(8) =~= be64(b.len() as u64));
    assert(d.subrange(8, 8 + b.len() as int) =~= b);
    encode_utf8_valid_utf8(s);
    assert(d.take(8 + b.len() as int) =~= string_encoding(s));
}

/// The encoding of a string ends where its length says: nothing that follows can be taken for
/// part of it.
pub proof fn law_string_encoding_prefix_free(a: Seq<char>, b: Seq<char>, ra: Seq<u8>, rb: Seq<u8>)
    requires
        encode_utf8(a).len() <= u64::MAX,
        encode_utf8(b).len() <= u64::MAX,
        string_encoding(a) + ra == string_encoding(b) + rb,
    ensures
        a == b,
        ra == rb,
{
    let d = string_encoding(a) + ra;
    lemma_string_roundtrip(a, ra);
    lemma_string_roundtrip(b, rb);
    lemma_be64(encode_utf8(a).len() as u64);
    lemma_be64(encode_utf8(b).len() as u64);
    assert(d.take(8) =~= be64(encode_utf8(a).len() as u64));
    assert((string_encoding(b) + rb).take(8) =~= be64(encode_utf8(b).len() as u64));
    assert(encode_utf8(a) =~= d.subrange(8, 8 + encode_utf8(a).len() as int));
    assert(encode_utf8(b) =~= d.subrange(8, 8 + encode_utf8(b).len() as int));
    encode_utf8_decode_utf8(a);
    encode_utf8_decode_utf8(b);
    assert(ra =~= d.skip(8 + encode_utf8(a).len() as int));
    assert(rb =~= (string_encoding(b) + rb).skip(8 + encode_utf8(b).len() as int));
}

impl Serialize for String {
    open spec fn encoding(&self) -> Seq<u8> {
        string_encoding(self@)
    }

    fn serialize(&self) -> (r: Vec<u8>) {
        let mut r = Vec::new();
        push_str_encoding(&mut r, self.as_str());
        r
    }
}

impl Deserialize for String {
    fn deserialize(data: &[u8]) -> (r: Option<(Self, usize)>)
        ensures
            r is Some <==> string_parses(data@),
    {
        read_string(data)
    }
}

/// What a client sends the server: something it did to the document, or a request.
#[derive(Debug, Clone)]
pub enum C2S {
    /// The client typed a character.
    Char(char),
    /// The client pressed backspace, moving that many empty pieces.
    Backspace(usize),
    /// The client pressed enter.
    Enter,
    /// The client entered insert mode at a position.
    EnterInsert(CursorPos),
    /// The client left insert mode.
    ExitInsert,
    /// The client asks for the document to be saved.
    Save,
    /// The path of the file the client wants to edit.
    Path(String),
}

impl Serialize for C2S {
    open spec fn encoding(&self) -> Seq<u8> {
        match self {
            C2S::Char(c) => seq![1u8] + c.encoding(),
            C2S::EnterInsert(a) => seq![2u8] + a.encoding(),
            C2S::Save => seq![3u8],
            C2S::ExitInsert => seq![4u8],
            C2S::Path(p) => seq![5u8] + string_encoding(p@),
            C2S::Backspace(swaps) => seq![8u8] + be64(*swaps as u64),
            C2S::Enter => seq![10u8],
        }
    }

    fn serialize(&self) -> (r: Vec<u8>) {
        let mut r = Vec::new();
        match self {
            C2S::Char(c) => {
                r.push(1u8);
                push_u32(&mut r, *c as u32);
            },
            C2S::EnterInsert(a) => {
                r.push(2u8);
                push_u64(&mut r, a.row as u64);
                push_u64(&mut r, a.col as u64);
            },
            C2S::Save => r.push(3u8),
            C2S::ExitInsert => r.push(4u8),
            C2S::Path(p) => {
                r.push(5u8);
                push_str_encoding(&mut r, p.as_str());
            },
            C2S::Backspace(swaps) => {
                r.push(8u8);
                push_u64(&mut r, *swaps as u64);
            },
            C2S::Enter => r.push(10u8),
        }
        proof {
            assert(r@ =~= self.encoding());
        }
        r
    }
}

/// Whether `d` starts with the encoding of a client message.
pub open spec fn c2s_parses(d: Seq<u8>) -> bool {
    &&& d.len() >= 1
    &&& if d[0] == 1 {
        d.len() >= 5 && is_scalar(from_be32(d.subrange(1, 5)))
    } else if d[0] == 2 {
        d.len() >= 17 && from_be64(d.subrange(1, 9)) <= usize::MAX && from_be64(d.subrange(9, 17))
            <= usize::MAX
    } else if d[0] == 3 || d[0] == 4 || d[0] == 10 {
        true
    } else if d[0] == 5 {
        string_parses(d.skip(1))
    } else if d[0] == 8 {
        d.len() >= 9 && from_be64(d.subrange(1, 9)) <= usize::MAX
    } else {
        false
    }
}

impl Deserialize for C2S {
    fn deserialize(data: &[u8]) -> (r: Option<(Self, usize)>)
        ensures
            r is Some <==> c2s_parses(data@),
    {
        if data.len() == 0 {
            return None;
        }
        let tag = data[0];
        let rest = &data[1..data.len()];
        proof {
            assert(rest@ =~= data@.skip(1));
            assert(forall|i: int, j: int| 0 <= i <= j <= rest@.len() ==> rest@.subrange(i, j) =~= data@.subrange(i + 1, j + 1));
        }
        if tag == 1 {
            match char::deserialize(rest) {
                Some((c, n)) => {
                    proof {
                        assert(rest@.take(4) =~= rest@.subrange(0, 4));
                        assert(data@.take(5) =~= seq![1u8] + rest@.take(4));
                    }
                    Some((C2S::Char(c), 1 + n))
                },
                None => {
                    proof {
                        if data@.len() >= 5 {
                            assert(rest@.take(4) =~= rest@.subrange(0, 4));
                        }
                    }
                    None
                },
            }
        } else if tag == 2 {
            match CursorPos::deserialize(rest) {
                Some((a, n)) => {
                    proof {
                        assert(rest@.take(8) =~= rest@.subrange(0, 8));
                        assert(data@.take(17) =~= seq![2u8] + rest@.take(16));
                    }
                    Some((C2S::EnterInsert(a), 1 + n))
                },
                None => {
                    proof {
                        if data@.len() >= 17 {
                            assert(rest@.take(8) =~= rest@.subrange(0, 8));
                        }
                    }
                    None
                },
            }
        } else if tag == 3 || tag == 4 || tag == 10 {
            let m = if tag == 3 {
                C2S::Save
            } else if tag == 4 {
                C2S::ExitInsert
            } else {
                C2S::Enter
            };
            proof {
                assert(data@.take(1) =~= seq![tag]);
            }
            Some((m, 1))
        } else if tag == 5 {
            match read_string(rest) {
                Some((p, n)) => {
                    proof {
                        assert(data@.take(1 + n) =~= seq![5u8] + rest@.take(n as int));
                    }
                    Some((C2S::Path(p), 1 + n))
                },
                None => None,
            }
        } else if tag == 8 {
            match usize::deserialize(rest) {
                Some((v, n)) => {
                    proof {
                        assert(rest@.take(8) =~= rest@.subrange(0, 8));
                        assert(data@.take(9) =~= seq![8u8] + rest@.take(8));
                    }
                    Some((C2S::Backspace(v), 1 + n))
                },
                None => {
                    proof {
                        if data@.len() >= 9 {
                            assert(rest@.take(8) =~= rest@.subrange(0, 8));
                        }
                    }
                    None
                },
            }
        } else {
            None
        }
    }
}

/// Every client message's encoding is read back: a receiver takes the message in full, and
/// exactly the bytes of its encoding.
pub proof fn law_c2s_encoding_parses(m: C2S, rest: Seq<u8>)
    requires
        m matches C2S::Path(p) ==> encode_utf8(p@).len() <= u64::MAX,
    ensures
        c2s_parses(m.encoding() + rest),
{
    let d = m.encoding() + rest;
    match m {
        C2S::Char(c) => {
            lemma_be32(c as u32);
            assert(d.subrange(1, 5) =~= be32(c as u32));
            char_is_scalar(c);
        },
        C2S::EnterInsert(a) => {
            lemma_be64(a.row as u64);
            lemma_be64(a.col as u64);
            assert(d.subrange(1, 9) =~= be64(a.row as u64));
            assert(d.subrange(9, 17) =~= be64(a.col as u64));
        },
        C2S::Path(p) => {
            assert(d.skip(1) =~= string_encoding(p@) + rest);
            lemma_string_roundtrip(p@, rest);
        },
        C2S::Backspace(n) => {
            lemma_be64(n as u64);
            assert(d.subrange(1, 9) =~= be64(n as u64));
        },
        _ => {},
    }
}


/// Two client messages are the same: equal, or both paths with the same characters.
pub open spec fn same_message(a: C2S, b: C2S) -> bool {
    match (a, b) {
        (C2S::Path(p), C2S::Path(q)) => p@ == q@,
        _ => a == b,
    }
}

/// Client messages cannot be mistaken for one another: when two encodings each followed by more
/// bytes agree, the encodings are the same (and so are the messages) and so is what follows.
pub proof fn law_c2s_encoding_prefix_free(a: C2S, b: C2S, ra: Seq<u8>, rb: Seq<u8>)
    requires
        a matches C2S::Path(p) ==> encode_utf8(p@).len() <= u64::MAX,
        b matches C2S::Path(p) ==> encode_utf8(p@).len() <= u64::MAX,
        a.encoding() + ra == b.encoding() + rb,
    ensures
        a.encoding() == b.encoding(),
        ra == rb,
        same_message(a, b),
{
    let d = a.encoding() + ra;
    assert(d[0] == a.encoding()[0]);
    assert((b.encoding() + rb)[0] == b.encoding()[0]);
    match a {
        C2S::Path(p) => {
            match b {
                C2S::Path(q) => {
                    assert(d.skip(1) =~= string_encoding(p@) + ra);
                    assert((b.encoding() + rb).skip(1) =~= string_encoding(q@) + rb);
                    law_string_encoding_prefix_free(p@, q@, ra, rb);
                },
                _ => {},
            }
        },
        _ => {
            let n = a.encoding().len() as int;
            assert(b.encoding().len() == n);
            assert(a.encoding() =~= d.take(n));
            assert(b.encoding() =~= (b.encoding() + rb).take(n));
            assert(ra =~= d.skip(n));
            assert(rb =~= (b.encoding() + rb).skip(n));
            let e = a.encoding();
            match (a, b) {
                (C2S::Char(x), C2S::Char(y)) => {
                    lemma_be32(x as u32);
                    lemma_be32(y as u32);
                    assert(e.subrange(1, 5) =~= be32(x as u32));
                    assert(b.encoding().subrange(1, 5) =~= be32(y as u32));
                },
                (C2S::EnterInsert(x), C2S::EnterInsert(y)) => {
                    lemma_be64(x.row as u64);
                    lemma_be64(y.row as u64);
                    lemma_be64(x.col as u64);
                    lemma_be64(y.col as u64);
                    assert(e.subrange(1, 9) =~= be64(x.row as u64));
                    assert(b.encoding().subrange(1, 9) =~= be64(y.row as u64));
                    assert(e.subrange(9, 17) =~= be64(x.col as u64));
                    assert(b.encoding().subrange(9, 17) =~= be64(y.col as u64));
                },
                (C2S::Backspace(x), C2S::Backspace(y)) => {
                    lemma_be64(x as u64);
                    lemma_be64(y as u64);
                    assert(e.subrange(1, 9) =~= be64(x as u64));
                    assert(b.encoding().subrange(1, 9) =~= be64(y as u64));
                },
                _ => {},
            }
        },
    }
}

/// A client message sent and then read back, from the front of whatever follows it, is the
/// message sent, and takes exactly the bytes of its encoding.
pub proof fn law_c2s_read_back(c: C2S, v: C2S, rest: Seq<u8>, n: int)
    requires
        c matches C2S::Path(p) ==> encode_utf8(p@).len() <= u64::MAX,
        v matches C2S::Path(p) ==> encode_utf8(p@).len() <= u64::MAX,
        0 <= n <= c.encoding().len() + rest.len(),
        (c.encoding() + rest).take(n) == v.encoding(),
    ensures
        same_message(v, c),
        n == c.encoding().len(),
{
    let d = c.encoding() + rest;
    assert(d =~= v.encoding() + d.skip(n));
    law_c2s_encoding_prefix_free(v, c, d.skip(n), rest);
}

/// An entry of a folder: its name, and whether it is a folder itself.
#[derive(Debug)]
pub struct Inhabitant {
    /// The entry's name.
    pub name: String,
    /// Whether the entry is a folder.
    pub is_folder: bool,
}

impl Serialize for Inhabitant {
    open spec fn encoding(&self) -> Seq<u8> {
        string_encoding(self.name@) + self.is_folder.encoding()
    }

    fn serialize(&self) -> (r: Vec<u8>) {
        let mut r = Vec::new();
        push_str_encoding(&mut r, self.name.as_str());
        r.push(if self.is_folder { 1u8 } else { 0u8 });
        proof {
            assert(r@ =~= self.encoding());
        }
        r
    }
}

impl Deserialize for Inhabitant {
    fn deserialize(data: &[u8]) -> (r: Option<(Self, usize)>)
        ensures
            r is Some <==> string_parses(data@) && ({
                let n = 8 + from_be64(data@.take(8));
                data@.len() > n && data@[n] <= 1
            }),
    {
        let (name, n) = match read_string(data) {
            Some(x) => x,
            None => return None,
        };
        proof {
            lemma_be64(encode_utf8(name@).len() as u64);
            assert(data@.take(n as int).len() == n as int);
            assert(string_encoding(name@).len() == 8 + encode_utf8(name@).len());
            assert(n >= 8);
            assert(data@.take(n as int).take(8) =~= data@.take(8));
            assert(data@.take(8) == be64(encode_utf8(name@).len() as u64));
            lemma_from_be64(data@.take(8));
        }
        let rest = &data[n..data.len()];
        match bool::deserialize(rest) {
            Some((is_folder, m)) => {
                proof {
                    assert(data@.take(n + m) =~= data@.take(n as int) + rest@.take(m as int));
                }
                Some((Inhabitant { name, is_folder }, n + m))
            },
            None => None,
        }
    }
}

/// The encodings of a sequence of values, one after the other.
pub open spec fn concat_encodings<T: Serialize>(s: Seq<T>) -> Seq<u8>
    decreases s.len(),
{
    if s.len() == 0 {
        Seq::empty()
    } else {
        concat_encodings(s.drop_last()) + s.last().encoding()
    }
}

impl<T: Serialize> Serialize for Vec<T> {
    open spec fn encoding(&self) -> Seq<u8> {
        be64(self@.len() as u64) + concat_encodings(self@)
    }

    fn serialize(&self) -> (r: Vec<u8>) {
        let mut r = Vec::new();
        push_u64(&mut r, self.len() as u64);
        let mut i: usize = 0;
        while i < self.len()
            invariant
                i <= self@.len(),
                r@ == be64(self@.len() as u64) + concat_encodings(self@.take(i as int)),
            decreases self@.len() - i,
        {
            let e = self[i].serialize();
            push_all(&mut r, e.as_slice());
            proof {
                assert(self@.take(i + 1).drop_last() =~= self@.take(i as int));
                assert(r@ =~= be64(self@.len() as u64) + concat_encodings(self@.take(i + 1)));
            }
            i = i + 1;
        }
        proof {
            assert(self@.take(i as int) =~= self@);
        }
        r
    }
}

impl<T: Deserialize> Deserialize for Vec<T> {
    /// Whether each element decodes is up to `T`; the count comes first, so fewer than eight
    /// bytes are refused and a count of zero decodes to an empty vector.
    fn deserialize(data: &[u8]) -> (r: Option<(Self, usize)>)
        ensures
            data@.len() < 8 ==> r is None,
            data@.len() >= 8 && from_be64(data@.take(8)) == 0 ==> (r matches Some((v, n)) && v@.len()
                == 0 && n == 8),
    {
        let count = match read_u64(data, 0) {
            Some(v) => v,
            None => return None,
        };
        proof {
            assert(data@.subrange(0, 8) =~= data@.take(8));
            lemma_from_be64(data@.take(8));
        }
        let mut out: Vec<T> = Vec::new();
        let mut at: usize = 8;
        let mut k: u64 = 0;
        while k < count
            invariant
                8 <= at <= data@.len(),
                k <= count,
                out@.len() == k,
                data@.take(8) == be64(count),
                count == from_be64(data@.take(8)),
                data@.subrange(8, at as int) == concat_encodings(out@),
            decreases count - k,
        {
            let rest = &data[at..data.len()];
            match T::deserialize(rest) {
                Some((v, n)) => {
                    proof {
                        assert(out@.push(v).drop_last() =~= out@);
                        assert(data@.subrange(8, at + n) =~= data@.subrange(8, at as int) + rest@.take(n as int));
                    }
                    out.push(v);
                    at = at + n;
                    k = k + 1;
                },
                None => return None,
            }
        }
        proof {
            assert(data@.take(at as int) =~= data@.take(8) + data@.subrange(8, at as int));
        }
        Some((out, at))
    }
}

/// What the server sends a client.
#[derive(Debug)]
pub enum S2C<T> {
    /// The full state of a document.
    Full(T),
    /// The entries of a folder.
    Folder(Vec<Inhabitant>),
    /// A client did something to the document.
    Update((usize, C2S)),
    /// A client connected, with its name and color.
    NewClient((String, Color)),
}

impl<T: Serialize> Serialize for S2C<T> {
    open spec fn encoding(&self) -> Seq<u8> {
        match self {
            S2C::Full(x) => seq![0u8] + x.encoding(),
            S2C::Update((id, action)) => seq![1u8] + be64(*id as u64) + action.encoding(),
            S2C::NewClient((username, color)) => seq![2u8] + string_encoding(username@)
                + color.encoding(),
            S2C::Folder(x) => seq![3u8] + x.encoding(),
        }
    }

    fn serialize(&self) -> (r: Vec<u8>) {
        let mut r = Vec::new();
        match self {
            S2C::Full(x) => {
                r.push(0u8);
                let e = x.serialize();
                push_all(&mut r, e.as_slice());
            },
            S2C::Update((id, action)) => {
                r.push(1u8);
                push_u64(&mut r, *id as u64);
                let e = action.serialize();
                push_all(&mut r, e.as_slice());
            },
            S2C::NewClient((username, color)) => {
                r.push(2u8);
                push_str_encoding(&mut r, username.as_str());
                let e = color.serialize();
                push_all(&mut r, e.as_slice());
            },
            S2C::Folder(x) => {
                r.push(3u8);
                let e = x.serialize();
                push_all(&mut r, e.as_slice());
            },
        }
        proof {
            assert(r@ =~= self.encoding());
        }
        r
    }
}

/// Whether `d` starts with the encoding of an update after its tag: a client number, then a
/// client message.
pub open spec fn update_parses(d: Seq<u8>) -> bool {
    d.len() >= 8 && from_be64(d.take(8)) <= usize::MAX && c2s_parses(d.skip(8))
}

/// Whether `d` starts with the encoding of a new client after its tag: a name, then a color.
pub open spec fn new_client_parses(d: Seq<u8>) -> bool {
    string_parses(d) && color_parses(d.skip(8 + from_be64(d.take(8))))
}

impl<T: Deserialize> Deserialize for S2C<T> {
    fn deserialize(data: &[u8]) -> (r: Option<(Self, usize)>)
        ensures
            r is Some ==> data@[0] <= 3,
            data@.len() >= 1 && data@[0] == 1 ==> (r is Some <==> update_parses(data@.skip(1))),
            data@.len() >= 1 && data@[0] == 2 ==> (r is Some <==> new_client_parses(data@.skip(1))),
    {
        if data.len() == 0 {
            return None;
        }
        let tag = data[0];
        let rest = &data[1..data.len()];
        proof {
            assert(rest@ =~= data@.skip(1));
        }
        if tag == 0 {
            match T::deserialize(rest) {
                Some((x, n)) => {
                    proof {
                        assert(data@.take(1 + n) =~= seq![0u8] + rest@.take(n as int));
                    }
                    Some((S2C::Full(x), 1 + n))
                },
                None => None,
            }
        } else if tag == 1 {
            let id = match read_usize(rest, 0) {
                Some(v) => v,
                None => return None,
            };
            let after = &rest[8..rest.len()];
            proof {
                assert(after@ =~= rest@.skip(8));
                assert(rest@.subrange(0, 8) =~= rest@.take(8));
            }
            match C2S::deserialize(after) {
                Some((action, n)) => {
                    proof {
                        lemma_from_be64(rest@.subrange(0, 8));
                        assert(data@.take(9 + n) =~= seq![1u8] + rest@.subrange(0, 8) + after@.take(n as int));
                    }
                    Some((S2C::Update((id, action)), 9 + n))
                },
                None => None,
            }
        } else if tag == 2 {
            let (username, n) = match read_string(rest) {
                Some(x) => x,
                None => return None,
            };
            let after = &rest[n..rest.len()];
            proof {
                assert(after@ =~= rest@.skip(n as int));
                lemma_string_length(username@, rest@, n as int);
            }
            match Color::deserialize(after) {
                Some((color, m)) => {
                    proof {
                        assert(data@.take(1 + n + m) =~= seq![2u8] + rest@.take(n as int) + after@.take(m as int));
                    }
                    Some((S2C::NewClient((username, color)), 1 + n + m))
                },
                None => None,
            }
        } else if tag == 3 {
            match Vec::<Inhabitant>::deserialize(rest) {
                Some((x, n)) => {
                    proof {
                        assert(data@.take(1 + n) =~= seq![3u8] + rest@.take(n as int));
                    }
                    Some((S2C::Folder(x), 1 + n))
                },
                None => None,
            }
        } else {
            None
        }
    }
}

/// Where a string's encoding starts some bytes, it takes as many of them as its length says.
proof fn lemma_string_length(s: Seq<char>, d: Seq<u8>, n: int)
    requires
        string_parses(d),
        0 <= n <= d.len(),
        d.len() <= usize::MAX,
        d.take(n) == string_encoding(s),
    ensures
        n == 8 + from_be64(d.take(8)),
{
    let b = encode_utf8(s);
    assert(d.take(n).len() == 8 + b.len());
    assert(d.take(8) =~= d.take(n).take(8));
    assert(string_encoding(s).take(8) =~= be64(b.len() as u64));
    lemma_be64(b.len() as u64);
}

/// Every update the server sends is read back by a client: the encoding of an update, whatever
/// follows it, decodes.
pub proof fn law_update_parses(id: usize, action: C2S, rest: Seq<u8>)
    requires
        action matches C2S::Path(p) ==> encode_utf8(p@).len() <= u64::MAX,
    ensures
        update_parses((S2C::<String>::Update((id, action)).encoding() + rest).skip(1)),
{
    let d = (S2C::<String>::Update((id, action)).encoding() + rest).skip(1);
    assert(d =~= be64(id as u64) + (action.encoding() + rest));
    lemma_be64(id as u64);
    assert(d.take(8) =~= be64(id as u64));
    assert(d.skip(8) =~= action.encoding() + rest);
    law_c2s_encoding_parses(action, rest);
}

/// Every announcement of a new client is read back by a client: the encoding of the name and
/// color, whatever follows it, decodes.
pub proof fn law_new_client_parses(name: String, color: Color, rest: Seq<u8>)
    requires
        encode_utf8(name@).len() <= u64::MAX,
    ensures
        new_client_parses((S2C::<String>::NewClient((name, color)).encoding() + rest).skip(1)),
{
    let d = (S2C::<String>::NewClient((name, color)).encoding() + rest).skip(1);
    let tail = color.encoding() + rest;
    assert(d =~= string_encoding(name@) + tail);
    lemma_string_roundtrip(name@, tail);
    let b = encode_utf8(name@);
    lemma_be64(b.len() as u64);
    assert(d.take(8) =~= be64(b.len() as u64));
    assert(d.skip(8 + b.len() as int) =~= tail);
    assert(tail[0] == color.encoding()[0]);
}

} // verus!
