//! A string which can only be appended to. Slices taken from it stay valid, and keep reading the
//! same bytes, however much is appended afterwards: each slice holds its own handle on the
//! storage it was taken from, and appending never changes bytes that are already there.
use std::sync::Arc;
use vstd::prelude::*;
use vstd::string::StringSliceAdditionalSpecFns;
use vstd::utf8::*;

use crate::encoding::{decode_char_at, encode_char, lemma_decode_concat, lemma_valid_between};

verus! {

broadcast use vstd::seq::group_seq_axioms;

/// `Arc::clone`: another handle on the same value.
#[verifier::external_body]
fn arc_clone<T>(a: &Arc<T>) -> (r: Arc<T>)
    ensures
        r == *a,
{
    Arc::clone(a)
}

/// `std::str::from_utf8`: `Some` exactly when the bytes are valid UTF-8, holding those bytes.
#[verifier::external_body]
pub(crate) fn str_from_utf8(bytes: &[u8]) -> (r: Option<&str>)
    ensures
        r is Some <==> valid_utf8(bytes@),
        r matches Some(s) ==> s.spec_bytes() == bytes@,
{
    std::str::from_utf8(bytes).ok()
}

/// One end of a range of positions.
#[derive(Debug, Clone, Copy, PartialEq, Eq, Structural)]
pub enum Bound {
    /// The position itself belongs to the range.
    Included(usize),
    /// The position itself does not belong to the range.
    Excluded(usize),
    /// The range extends as far as it can.
    Unbounded,
}

/// A range of positions given by its two ends, as `a..b`, `a..=b`, `..b`, `a..` or `..` do.
#[derive(Debug, Clone, Copy, PartialEq, Eq, Structural)]
pub struct Span {
    pub start: Bound,
    pub end: Bound,
}

impl Span {
    /// The first position of the range, where the range would start at `min` when unbounded.
    pub open spec fn first(self, min: int) -> int {
        match self.start {
            Bound::Included(v) => v as int,
            Bound::Excluded(v) => v + 1,
            Bound::Unbounded => min,
        }
    }

    /// The position just past the range, where the range would end at `max` when unbounded.
    pub open spec fn past(self, max: int) -> int {
        match self.end {
            Bound::Included(v) => v + 1,
            Bound::Excluded(v) => v as int,
            Bound::Unbounded => max,
        }
    }

    /// The range lies within `min..max`.
    pub open spec fn fits(self, min: int, max: int) -> bool {
        &&& self.first(min) <= self.past(max) <= max
        &&& 0 <= self.first(min)
    }

    /// `..`
    pub fn full() -> (r: Span)
        ensures
            r == (Span { start: Bound::Unbounded, end: Bound::Unbounded }),
    {
        Span { start: Bound::Unbounded, end: Bound::Unbounded }
    }

    /// `start..end`
    pub fn range(start: usize, end: usize) -> (r: Span)
        ensures
            r == (Span { start: Bound::Included(start), end: Bound::Excluded(end) }),
    {
        Span { start: Bound::Included(start), end: Bound::Excluded(end) }
    }

    /// `start..=end`
    pub fn inclusive(start: usize, end: usize) -> (r: Span)
        ensures
            r == (Span { start: Bound::Included(start), end: Bound::Included(end) }),
    {
        Span { start: Bound::Included(start), end: Bound::Included(end) }
    }

    /// `..end`
    pub fn up_to(end: usize) -> (r: Span)
        ensures
            r == (Span { start: Bound::Unbounded, end: Bound::Excluded(end) }),
    {
        Span { start: Bound::Unbounded, end: Bound::Excluded(end) }
    }

    /// `start..`
    pub fn starting_at(start: usize) -> (r: Span)
        ensures
            r == (Span { start: Bound::Included(start), end: Bound::Unbounded }),
    {
        Span { start: Bound::Included(start), end: Bound::Unbounded }
    }
}

/// Resolves a range against the positions `min_len..max_len` it may cover.
pub fn get_range(range: Span, min_len: usize, max_len: usize) -> (r: (usize, usize))
    requires
        range.fits(min_len as int, max_len as int),
    ensures
        r.0 == range.first(min_len as int),
        r.1 == range.past(max_len as int),
{
    let start = match range.start {
        Bound::Included(v) => v,
        Bound::Excluded(v) => v + 1,
        Bound::Unbounded => min_len,
    };
    let end = match range.end {
        Bound::Included(v) => v + 1,
        Bound::Excluded(v) => v,
        Bound::Unbounded => max_len,
    };
    (start, end)
}

/// The storage behind an `AppendOnlyStr`: the bytes written so far and the room set aside.
#[derive(Debug)]
pub struct RawBuf {
    bytes: Vec<u8>,
    capacity: usize,
}

impl RawBuf {
    /// The bytes written so far.
    pub closed spec fn bytes(&self) -> Seq<u8> {
        self.bytes@
    }

    /// The room set aside.
    pub closed spec fn room(&self) -> nat {
        self.capacity as nat
    }

    /// A storage with no bytes and no room.
    pub fn new() -> (r: Self)
        ensures
            r.bytes() == Seq::<u8>::empty(),
            r.room() == 0,
    {
        RawBuf { bytes: Vec::new(), capacity: 0 }
    }

    /// A storage with no bytes and room for `capacity` of them.
    pub fn with_capacity(capacity: usize) -> (r: Self)
        requires
            0 < capacity <= isize::MAX,
        ensures
            r.bytes() == Seq::<u8>::empty(),
            r.room() == capacity,
    {
        RawBuf { bytes: Vec::with_capacity(capacity), capacity }
    }

    /// The room set aside.
    pub fn capacity(&self) -> (r: usize)
        ensures
            r == self.room(),
    {
        self.capacity
    }
}

/// The capacity the buffer grows to from `cap` so as to hold `target` bytes: it doubles until
/// it is large enough, and takes `target` itself when doubling would overflow.
pub open spec fn grown_capacity(cap: nat, target: nat) -> nat {
    if cap == 0 {
        if target <= 1 { 1 } else { grown_capacity_from(1, target) }
    } else {
        grown_capacity_from(cap, target)
    }
}

/// Doubling from a positive capacity, as `grown_capacity` describes.
pub open spec fn grown_capacity_from(cap: nat, target: nat) -> nat
    decreases usize::MAX - cap,
    when cap >= 1
{
    if cap >= target {
        cap
    } else if cap * 2 <= usize::MAX {
        grown_capacity_from(cap * 2, target)
    } else {
        target
    }
}

proof fn lemma_grown_capacity_from_bounds(cap: nat, target: nat)
    requires
        cap >= 1,
    ensures
        grown_capacity_from(cap, target) >= target,
        grown_capacity_from(cap, target) >= cap,
    decreases usize::MAX - cap,
{
    if cap >= target {
    } else if cap * 2 <= usize::MAX {
        lemma_grown_capacity_from_bounds(cap * 2, target);
    }
}

/// A thread safe append only string.
#[derive(Debug)]
pub struct AppendOnlyStr {
    rawbuf: Arc<RawBuf>,
    len: usize,
}

impl View for AppendOnlyStr {
    type V = Seq<u8>;

    /// The bytes of the string.
    closed spec fn view(&self) -> Seq<u8> {
        self.rawbuf.bytes@
    }
}

impl AppendOnlyStr {
    #[verifier::type_invariant]
    closed spec fn inv(self) -> bool {
        &&& self.len == self.rawbuf.bytes@.len()
        &&& self.rawbuf.bytes@.len() <= self.rawbuf.capacity
        &&& valid_utf8(self.rawbuf.bytes@)
    }

    /// The room set aside for the string's bytes.
    pub closed spec fn room(&self) -> nat {
        self.rawbuf.capacity as nat
    }

    /// The characters of the string.
    pub open spec fn text(&self) -> Seq<char> {
        decode_utf8(self@)
    }

    /// What holds of every string: its bytes are valid UTF-8 and fit the room set aside.
    pub open spec fn well_formed(&self) -> bool {
        &&& valid_utf8(self@)
        &&& self@.len() <= self.room()
        &&& self.room() <= usize::MAX
    }

    /// An empty string with no room.
    pub fn new() -> (r: Self)
        ensures
            r.well_formed(),
            r@ == Seq::<u8>::empty(),
            r.room() == 0,
    {
        AppendOnlyStr { rawbuf: Arc::new(RawBuf::new()), len: 0 }
    }

    /// An empty string with room for `capacity` bytes.
    pub fn with_capacity(capacity: usize) -> (r: Self)
        requires
            capacity <= isize::MAX,
        ensures
            r.well_formed(),
            r@ == Seq::<u8>::empty(),
            r.room() == capacity,
    {
        if capacity == 0 {
            Self::new()
        } else {
            AppendOnlyStr { rawbuf: Arc::new(RawBuf::with_capacity(capacity)), len: 0 }
        }
    }

    /// A string holding exactly `s`.
    pub fn from_str(s: &str) -> (r: Self)
        requires
            s.spec_bytes().len() <= isize::MAX,
        ensures
            r.well_formed(),
            r@ == s.spec_bytes(),
            r.text() == s@,
            r.room() == s.spec_bytes().len(),
    {
        let mut ret = Self::with_capacity(s.len());
        ret.push_str(s);
        proof {
            assert(Seq::<u8>::empty() + s.spec_bytes() =~= s.spec_bytes());
        }
        ret
    }

    /// Whether `reserve(amount)` finds or makes the room it needs without overflowing.
    pub open spec fn can_reserve(&self, amount: nat) -> bool {
        &&& self@.len() + amount <= usize::MAX
        &&& (self@.len() + amount <= self.room() || grown_capacity(
            self.room(),
            (self@.len() + amount) as nat,
        ) <= isize::MAX)
    }

    /// Whether `reserve(amount)` finds or makes its room: the test of `can_reserve`.
    pub fn has_room_for(&self, amount: usize) -> (r: bool)
        ensures
            r == self.can_reserve(amount as nat),
    {
        proof {
            use_type_invariant(self);
        }
        let len = self.len;
        if amount > usize::MAX - len {
            return false;
        }
        let target = len + amount;
        if target <= self.rawbuf.capacity {
            return true;
        }
        let mut cap = self.rawbuf.capacity;
        if cap == 0 {
            cap = 1;
        }
        let ghost goal = grown_capacity(self.rawbuf.capacity as nat, target as nat);
        assert(goal == grown_capacity_from(cap as nat, target as nat));
        while cap < target
            invariant
                cap >= 1,
                grown_capacity_from(cap as nat, target as nat) == goal,
            decreases usize::MAX - cap,
        {
            match cap.checked_mul(2) {
                Some(x) => cap = x,
                None => cap = target,
            }
        }
        assert(goal == cap);
        cap <= isize::MAX as usize
    }

    /// Guarantees that the buffer will be able to hold `amount` more bytes.
    pub fn reserve(&mut self, amount: usize)
        requires
            old(self).can_reserve(amount as nat),
        ensures
            final(self).well_formed(),
            final(self)@ == old(self)@,
            old(self)@.len() + amount <= old(self).room() ==> final(self).room() == old(
                self,
            ).room(),
            old(self)@.len() + amount > old(self).room() ==> final(self).room() == grown_capacity(
                old(self).room(),
                (old(self)@.len() + amount) as nat,
            ),
            final(self).room() >= final(self)@.len() + amount,
    {
        proof {
            use_type_invariant(&*self);
        }
        let len = self.len;
        let target = len + amount;
        if target <= self.rawbuf.capacity {
            return;
        }
        let mut new_capacity = self.rawbuf.capacity;
        if new_capacity == 0 {
            new_capacity = 1;
        }
        let ghost goal = grown_capacity(self.rawbuf.capacity as nat, target as nat);
        assert(goal == grown_capacity_from(new_capacity as nat, target as nat));
        while new_capacity < target
            invariant
                new_capacity >= 1,
                grown_capacity_from(new_capacity as nat, target as nat) == goal,
            decreases usize::MAX - new_capacity,
        {
            match new_capacity.checked_mul(2) {
                Some(x) => new_capacity = x,
                None => new_capacity = target,
            }
        }
        proof {
            lemma_grown_capacity_from_bounds(new_capacity as nat, target as nat);
        }
        let mut bytes: Vec<u8> = Vec::with_capacity(new_capacity);
        let mut i: usize = 0;
        while i < len
            invariant
                i <= len,
                len == self.rawbuf.bytes@.len(),
                bytes@ == self.rawbuf.bytes@.subrange(0, i as int),
            decreases len - i,
        {
            bytes.push(self.rawbuf.bytes[i]);
            i = i + 1;
        }
        proof {
            assert(bytes@ =~= self.rawbuf.bytes@);
        }
        *self = AppendOnlyStr { rawbuf: Arc::new(RawBuf { bytes, capacity: new_capacity }), len };
    }

    /// Writes bytes after the current end; the room for them has been set aside already.
    fn write_unchecked(&mut self, bytes: &[u8])
        requires
            old(self)@.len() + bytes@.len() <= old(self).room(),
            valid_utf8(bytes@),
        ensures
            final(self).well_formed(),
            final(self)@ == old(self)@ + bytes@,
            final(self).room() == old(self).room(),
    {
        proof {
            use_type_invariant(&*self);
            valid_utf8_concat(self@, bytes@);
        }
        let len = self.len;
        let capacity = self.rawbuf.capacity;
        let mut data: Vec<u8> = Vec::with_capacity(capacity);
        let mut i: usize = 0;
        while i < len
            invariant
                i <= len,
                len == self.rawbuf.bytes@.len(),
                data@ == self.rawbuf.bytes@.subrange(0, i as int),
            decreases len - i,
        {
            data.push(self.rawbuf.bytes[i]);
            i = i + 1;
        }
        let mut j: usize = 0;
        while j < bytes.len()
            invariant
                j <= bytes@.len(),
                len == self.rawbuf.bytes@.len(),
                data@ == self.rawbuf.bytes@ + bytes@.subrange(0, j as int),
            decreases bytes@.len() - j,
        {
            data.push(bytes[j]);
            j = j + 1;
        }
        proof {
            assert(data@ =~= self@ + bytes@);
        }
        let new_len = len + bytes.len();
        *self = AppendOnlyStr { rawbuf: Arc::new(RawBuf { bytes: data, capacity }), len: new_len };
    }

    /// Pushes a series of bytes, which must form valid UTF-8, onto the string.
    pub fn push_bytes(&mut self, bytes: &[u8])
        requires
            valid_utf8(bytes@),
            old(self).can_reserve(bytes@.len()),
        ensures
            final(self).well_formed(),
            final(self)@ == old(self)@ + bytes@,
            old(self)@.len() + bytes@.len() <= old(self).room() ==> final(self).room() == old(
                self,
            ).room(),
            old(self)@.len() + bytes@.len() > old(self).room() ==> final(self).room()
                == grown_capacity(old(self).room(), (old(self)@.len() + bytes@.len()) as nat),
    {
        self.reserve(bytes.len());
        self.write_unchecked(bytes);
    }

    /// Pushes a string onto the `AppendOnlyStr`.
    pub fn push_str(&mut self, s: &str)
        requires
            old(self).can_reserve(s.spec_bytes().len()),
        ensures
            final(self).well_formed(),
            final(self)@ == old(self)@ + s.spec_bytes(),
            final(self).text() == old(self).text() + s@,
            old(self)@.len() + s.spec_bytes().len() <= old(self).room() ==> final(self).room()
                == old(self).room(),
            old(self)@.len() + s.spec_bytes().len() > old(self).room() ==> final(self).room()
                == grown_capacity(old(self).room(), (old(self)@.len() + s.spec_bytes().len()) as nat),
    {
        proof {
            encode_utf8_valid_utf8(s@);
            use_type_invariant(&*self);
            lemma_decode_concat(self@, s.spec_bytes());
            encode_utf8_decode_utf8(s@);
        }
        self.push_bytes(s.as_bytes());
    }

    /// Appends a single character to the buffer.
    pub fn push(&mut self, c: char)
        requires
            old(self).can_reserve(encode_utf8(seq![c]).len()),
        ensures
            final(self).well_formed(),
            final(self)@ == old(self)@ + encode_utf8(seq![c]),
            final(self).text() == old(self).text().push(c),
    {
        let buf = encode_char(c);
        proof {
            encode_utf8_valid_utf8(seq![c]);
            use_type_invariant(&*self);
            lemma_decode_concat(self@, encode_utf8(seq![c]));
            encode_utf8_decode_utf8(seq![c]);
            assert(self.text() + seq![c] =~= self.text().push(c));
        }
        self.push_bytes(buf.as_slice());
    }

    /// Returns the length in bytes of this string.
    pub fn len(&self) -> (r: usize)
        ensures
            self.well_formed(),
            r == self@.len(),
    {
        proof {
            use_type_invariant(self);
        }
        self.len
    }

    /// Whether the string holds no bytes.
    pub fn is_empty(&self) -> (r: bool)
        ensures
            r == (self@.len() == 0),
    {
        proof {
            use_type_invariant(self);
        }
        self.len == 0
    }

    /// The characters of the string.
    pub fn chars(&self) -> (r: Vec<char>)
        ensures
            r@ == self.text(),
    {
        proof {
            use_type_invariant(self);
        }
        proof {
            assert(self.rawbuf.bytes@.subrange(0, self.len as int) =~= self@);
        }
        decode_all(self.rawbuf.bytes.as_slice(), 0, self.len)
    }

    /// Creates a slice referring to a range of the bytes. The slice stays valid, with the same
    /// content, however much is pushed afterwards.
    pub fn slice(&self, range: Span) -> (r: ByteSlice)
        requires
            range.fits(0, self@.len() as int),
        ensures
            r.well_formed(),
            r.start() == range.first(0),
            r.end() == range.past(self@.len() as int),
            r.buffer() == self@,
    {
        proof {
            use_type_invariant(self);
        }
        let (start, end) = get_range(range, 0, self.len);
        ByteSlice { raw: arc_clone(&self.rawbuf), start, end }
    }

    /// Creates a string slice referring to a range of the bytes, whose ends are character
    /// boundaries.
    pub fn str_slice(&self, range: Span) -> (r: StrSlice)
        requires
            range.fits(0, self@.len() as int),
            is_char_boundary(self@, range.first(0)),
            is_char_boundary(self@, range.past(self@.len() as int)),
        ensures
            r.well_formed(),
            r.start() == range.first(0),
            r.end() == range.past(self@.len() as int),
            r.buffer() == self@,
    {
        proof {
            use_type_invariant(self);
        }
        let byteslice = self.slice(range);
        StrSlice { byteslice }
    }

    /// An empty string slice at the end of the string.
    pub fn str_slice_end(&self) -> (r: StrSlice)
        ensures
            r.well_formed(),
            r.start() == self@.len(),
            r.end() == self@.len(),
            r.buffer() == self@,
    {
        proof {
            use_type_invariant(self);
            is_char_boundary_start_end_of_seq(self@);
        }
        let len = self.len;
        self.str_slice(Span::range(len, len))
    }

    /// A string slice over all of the string.
    pub fn full_str_slice(&self) -> (r: StrSlice)
        ensures
            r.well_formed(),
            r.start() == 0,
            r.end() == self@.len(),
            r.buffer() == self@,
    {
        proof {
            use_type_invariant(self);
            is_char_boundary_start_end_of_seq(self@);
        }
        self.str_slice(Span::full())
    }

    /// Creates an iterator over the chars in the string which owns what it reads.
    pub fn owned_chars(&self) -> (r: Chars)
        ensures
            r.rest() == self.text(),
    {
        let whole = self.full_str_slice();
        proof {
            assert(whole.bytes() =~= self@);
        }
        whole.owned_chars()
    }
}

/// Decodes the bytes `bytes[from..to]`, which form valid UTF-8.
pub(crate) fn decode_all(bytes: &[u8], from: usize, to: usize) -> (r: Vec<char>)
    requires
        from <= to <= bytes@.len(),
        valid_utf8(bytes@.subrange(from as int, to as int)),
    ensures
        r@ == decode_utf8(bytes@.subrange(from as int, to as int)),
{
    let ghost whole = bytes@.subrange(from as int, to as int);
    let window = vstd::slice::slice_subrange(bytes, from, to);
    let mut out: Vec<char> = Vec::new();
    let mut i: usize = 0;
    proof {
        assert(window@.subrange(0, window@.len() as int) =~= window@);
    }
    while i < window.len()
        invariant
            window@ == whole,
            i <= window@.len(),
            valid_utf8(window@.subrange(i as int, window@.len() as int)),
            decode_utf8(whole) == out@ + decode_utf8(window@.subrange(i as int, window@.len() as int)),
        decreases window@.len() - i,
    {
        let (c, w) = decode_char_at(window, i);
        proof {
            let sub = window@.subrange(i as int, window@.len() as int);
            assert(pop_first_scalar(sub) =~= window@.subrange(i + w, window@.len() as int));
            assert(out@.push(c) + decode_utf8(pop_first_scalar(sub)) =~= out@ + decode_utf8(sub));
        }
        out.push(c);
        i = i + w;
    }
    proof {
        assert(window@.subrange(i as int, window@.len() as int) =~= Seq::<u8>::empty());
        assert(out@ + Seq::<char>::empty() =~= out@);
    }
    out
}

/// A slice of bytes which stays valid through appends to the string it was taken from.
#[derive(Debug)]
pub struct ByteSlice {
    raw: Arc<RawBuf>,
    start: usize,
    end: usize,
}

impl ByteSlice {
    #[verifier::type_invariant]
    closed spec fn inv(self) -> bool {
        self.start <= self.end <= self.raw.bytes@.len()
    }

    /// Inclusive starting position of the slice within the buffer.
    pub closed spec fn spec_start(&self) -> usize {
        self.start
    }

    /// Exclusive ending position of the slice within the buffer.
    pub closed spec fn spec_end(&self) -> usize {
        self.end
    }

    /// The whole buffer the slice was taken from, as it was when the slice was taken.
    pub closed spec fn buffer(&self) -> Seq<u8> {
        self.raw.bytes@
    }

    /// The bytes of the slice.
    pub open spec fn bytes(&self) -> Seq<u8> {
        self.buffer().subrange(self.start() as int, self.end() as int)
    }

    /// What holds of every byte slice: its positions are ordered and lie within the buffer.
    pub open spec fn well_formed(&self) -> bool {
        self.start() <= self.end() <= self.buffer().len()
    }

    /// Creates a byte slice with no data.
    pub fn empty() -> (r: Self)
        ensures
            r.well_formed(),
            r.start() == 0,
            r.end() == 0,
            r.buffer() == Seq::<u8>::empty(),
    {
        ByteSlice { raw: Arc::new(RawBuf::new()), start: 0, end: 0 }
    }

    /// Returns the starting position of the slice.
    #[verifier::when_used_as_spec(spec_start)]
    pub fn start(&self) -> (r: usize)
        ensures
            r == self.start(),
    {
        self.start
    }

    /// Returns the ending position of the slice.
    #[verifier::when_used_as_spec(spec_end)]
    pub fn end(&self) -> (r: usize)
        ensures
            r == self.end(),
    {
        self.end
    }

    /// The number of bytes in the slice.
    pub fn len(&self) -> (r: usize)
        ensures
            self.well_formed(),
            r == self.end() - self.start(),
    {
        proof {
            use_type_invariant(self);
        }
        self.end - self.start
    }

    /// Returns the slice as an actual slice.
    pub fn as_bytes(&self) -> (r: &[u8])
        ensures
            r@ == self.bytes(),
    {
        proof {
            use_type_invariant(self);
        }
        vstd::slice::slice_subrange(self.raw.bytes.as_slice(), self.start, self.end)
    }

    /// Creates a new slice over a range within the current one; the range counts from the
    /// start of this slice.
    pub fn subslice(&self, range: Span) -> (r: Self)
        requires
            range.fits(0, self.end() - self.start()),
        ensures
            r.well_formed(),
            r.start() == self.start() + range.first(0),
            r.end() == self.start() + range.past(self.end() - self.start()),
            r.buffer() == self.buffer(),
    {
        proof {
            use_type_invariant(self);
        }
        let (start, end) = get_range(range, 0, self.end - self.start);
        ByteSlice { raw: arc_clone(&self.raw), start: self.start + start, end: self.start + end }
    }

    /// Another slice over the same bytes of the same buffer.
    pub fn duplicate(&self) -> (r: Self)
        ensures
            r.well_formed(),
            r.start() == self.start(),
            r.end() == self.end(),
            r.buffer() == self.buffer(),
    {
        proof {
            use_type_invariant(self);
        }
        ByteSlice { raw: arc_clone(&self.raw), start: self.start, end: self.end }
    }
}

/// A string slice which stays valid through appends to the string it was taken from.
#[derive(Debug)]
pub struct StrSlice {
    byteslice: ByteSlice,
}

impl StrSlice {
    #[verifier::type_invariant]
    closed spec fn inv(self) -> bool {
        &&& valid_utf8(self.byteslice.raw.bytes@)
        &&& is_char_boundary(self.byteslice.raw.bytes@, self.byteslice.start as int)
        &&& is_char_boundary(self.byteslice.raw.bytes@, self.byteslice.end as int)
    }

    /// Starting position of the slice within the buffer.
    pub closed spec fn spec_start(&self) -> usize {
        self.byteslice.start
    }

    /// Ending position of the slice within the buffer.
    pub closed spec fn spec_end(&self) -> usize {
        self.byteslice.end
    }

    /// The buffer the slice was taken from, as it was when the slice was taken.
    pub closed spec fn buffer(&self) -> Seq<u8> {
        self.byteslice.buffer()
    }

    /// The bytes of the slice.
    pub open spec fn bytes(&self) -> Seq<u8> {
        self.buffer().subrange(self.start() as int, self.end() as int)
    }

    /// The characters of the slice.
    pub open spec fn text(&self) -> Seq<char> {
        decode_utf8(self.bytes())
    }

    /// What holds of every string slice: its ends are character boundaries of a valid buffer.
    pub open spec fn well_formed(&self) -> bool {
        &&& self.start() <= self.end() <= self.buffer().len()
        &&& valid_utf8(self.buffer())
        &&& is_char_boundary(self.buffer(), self.start() as int)
        &&& is_char_boundary(self.buffer(), self.end() as int)
    }

    /// The type invariant, as the spec functions state it.
    fn lemma_wf(&self)
        ensures
            self.well_formed(),
            valid_utf8(self.bytes()),
    {
        proof {
            use_type_invariant(self);
            use_type_invariant(&self.byteslice);
            lemma_valid_between(self.buffer(), self.start() as int, self.end() as int);
        }
    }

    /// Creates an empty string slice.
    pub fn empty() -> (r: Self)
        ensures
            r.well_formed(),
            r.start() == 0,
            r.end() == 0,
            r.buffer() == Seq::<u8>::empty(),
    {
        let byteslice = ByteSlice::empty();
        proof {
            assert(is_char_boundary(Seq::<u8>::empty(), 0));
        }
        StrSlice { byteslice }
    }

    /// Returns the underlying byte representation of the string.
    pub fn as_bytes(&self) -> (r: &ByteSlice)
        ensures
            r.well_formed(),
            r.start() == self.start(),
            r.end() == self.end(),
            r.buffer() == self.buffer(),
    {
        proof {
            use_type_invariant(&self.byteslice);
        }
        &self.byteslice
    }

    /// Returns the starting position in the buffer of this string slice.
    #[verifier::when_used_as_spec(spec_start)]
    pub fn start(&self) -> (r: usize)
        ensures
            r == self.start(),
    {
        self.byteslice.start
    }

    /// Returns the end position in the buffer of this string slice.
    #[verifier::when_used_as_spec(spec_end)]
    pub fn end(&self) -> (r: usize)
        ensures
            r == self.end(),
    {
        self.byteslice.end
    }

    /// Returns the length in bytes of the slice.
    pub fn len(&self) -> (r: usize)
        ensures
            self.well_formed(),
            r == self.end() - self.start(),
            r == self.bytes().len(),
    {
        self.lemma_wf();
        self.byteslice.len()
    }

    /// Checks if the slice contains anything whatsoever.
    pub fn is_empty(&self) -> (r: bool)
        ensures
            self.well_formed(),
            r == (self.end() == self.start()),
            r == (self.text().len() == 0),
    {
        self.lemma_wf();
        proof {
            if self.bytes().len() > 0 {
                assert(self.text().len() > 0);
            }
        }
        self.byteslice.start == self.byteslice.end
    }

    /// Converts the slice to a string slice.
    pub fn as_str(&self) -> (r: &str)
        ensures
            r.spec_bytes() == self.bytes(),
            r@ == self.text(),
    {
        self.lemma_wf();
        proof {
            decode_utf8_encode_utf8(self.bytes());
        }
        let s = str_from_utf8(self.byteslice.as_bytes()).unwrap();
        proof {
            encode_utf8_decode_utf8(s@);
        }
        s
    }

    /// The characters of the slice.
    pub fn chars(&self) -> (r: Vec<char>)
        ensures
            r@ == self.text(),
    {
        self.lemma_wf();
        decode_all(self.byteslice.raw.bytes.as_slice(), self.byteslice.start, self.byteslice.end)
    }

    /// Creates a subslice over a range counted from the start of this slice. Returns `None`
    /// when an end of the range is not at a character boundary.
    pub fn subslice(&self, range: Span) -> (r: Option<Self>)
        requires
            range.fits(0, self.end() - self.start()),
        ensures
            r is Some <==> (is_char_boundary(self.bytes(), range.first(0)) && is_char_boundary(
                self.bytes(),
                range.past(self.end() - self.start()),
            )),
            r matches Some(s) ==> {
                &&& s.start() == self.start() + range.first(0)
                &&& s.end() == self.start() + range.past(self.end() - self.start())
                &&& s.buffer() == self.buffer()
                &&& s.well_formed()
            },
    {
        self.lemma_wf();
        let (relative_start, relative_end) = get_range(range, 0, self.len());
        let text = self.as_str();
        if !text.is_char_boundary(relative_start) || !text.is_char_boundary(relative_end) {
            return None;
        }
        let byteslice = self.byteslice.subslice(range);
        proof {
            lemma_boundary_lift(self.buffer(), self.start() as int, self.end() as int, relative_start as int);
            lemma_boundary_lift(self.buffer(), self.start() as int, self.end() as int, relative_end as int);
        }
        Some(StrSlice { byteslice })
    }

    /// Another string slice over the same bytes of the same buffer.
    pub fn duplicate(&self) -> (r: Self)
        ensures
            r.well_formed(),
            r.start() == self.start(),
            r.end() == self.end(),
            r.buffer() == self.buffer(),
    {
        self.lemma_wf();
        StrSlice { byteslice: self.byteslice.duplicate() }
    }

    /// Creates an iterator over the chars in this slice which owns what it reads.
    pub fn owned_chars(&self) -> (r: Chars)
        ensures
            r.rest() == self.text(),
    {
        Chars { string: self.duplicate() }
    }
}

/// A boundary of the window `bytes[start..end]` is a boundary of `bytes` once shifted by
/// `start`.
proof fn lemma_boundary_lift(bytes: Seq<u8>, start: int, end: int, k: int)
    requires
        valid_utf8(bytes),
        0 <= start <= end <= bytes.len(),
        is_char_boundary(bytes, start),
        is_char_boundary(bytes, end),
        0 <= k <= end - start,
        valid_utf8(bytes.subrange(start, end)),
        is_char_boundary(bytes.subrange(start, end), k),
    ensures
        is_char_boundary(bytes, start + k),
{
    let w = bytes.subrange(start, end);
    if k == end - start {
    } else if k == 0 {
    } else {
        is_char_boundary_iff_not_is_continuation_byte(w, k);
        is_char_boundary_iff_not_is_continuation_byte(bytes, start + k);
    }
}

/// An iterator over the chars of a string slice which owns what it reads.
#[derive(Debug)]
pub struct Chars {
    string: StrSlice,
}

impl Chars {
    /// The characters still to come.
    pub closed spec fn rest(&self) -> Seq<char> {
        self.string.text()
    }

    /// The next character, if any is left.
    pub fn next(&mut self) -> (r: Option<char>)
        ensures
            old(self).rest().len() == 0 ==> r is None && final(self).rest() == old(self).rest(),
            old(self).rest().len() > 0 ==> r == Some(old(self).rest()[0]) && final(self).rest()
                == old(self).rest().drop_first(),
    {
        self.string.lemma_wf();
        if self.string.is_empty() {
            return None;
        }
        let ghost sub = self.string.bytes();
        proof {
            assert(sub.subrange(0, sub.len() as int) =~= sub);
        }
        let (c, w) = decode_char_at(self.string.byteslice.as_bytes(), 0);
        proof {
            assert(self.string.byteslice.bytes() == sub);
            assert(sub.subrange(0, sub.len() as int) =~= sub);
            assert(is_char_boundary(sub, w as int)) by {
                reveal_with_fuel(is_char_boundary, 2);
            }
            is_char_boundary_start_end_of_seq(sub);
        }
        let rest = self.string.subslice(Span::starting_at(w)).unwrap();
        proof {
            assert(rest.bytes() =~= pop_first_scalar(sub));
        }
        self.string = rest;
        Some(c)
    }
}

/// The bytes appended by each of a run of appends, one after the other.
pub open spec fn appended_len(ys: Seq<Seq<u8>>) -> nat
    decreases ys.len(),
{
    if ys.len() == 0 {
        0
    } else {
        appended_len(ys.drop_last()) + ys.last().len()
    }
}

/// After a run of appends, a string is as long, in bytes, as it was plus all that was appended.
pub proof fn law_len_after_appends(ss: Seq<AppendOnlyStr>, ys: Seq<Seq<u8>>)
    requires
        ss.len() == ys.len() + 1,
        forall|i: int| 0 <= i < ys.len() ==> (#[trigger] ss[i + 1])@ == ss[i]@ + ys[i],
    ensures
        ss.last()@.len() == ss[0]@.len() + appended_len(ys),
    decreases ys.len(),
{
    if ys.len() > 0 {
        let n = ys.len() - 1;
        let ss1 = ss.drop_last();
        assert forall|i: int| 0 <= i < ys.drop_last().len() implies (#[trigger] ss1[i + 1])@
            == ss1[i]@ + ys.drop_last()[i] by {
            assert(ss1[i + 1] == ss[i + 1]);
        }
        law_len_after_appends(ss1, ys.drop_last());
        assert(ss[n + 1]@ == ss[n]@ + ys[n]);
    } else {
        assert(ss.last() == ss[0]);
    }
}

/// A slice taken from a string before an append reads the same bytes of the grown string.
pub proof fn law_append_keeps_slices(before: AppendOnlyStr, after: AppendOnlyStr, y: Seq<u8>, r: StrSlice)
    requires
        after@ == before@ + y,
        r.buffer() == before@,
        r.well_formed(),
    ensures
        r.bytes() == after@.subrange(r.start() as int, r.end() as int),
        after@.subrange(0, before@.len() as int) == before@,
{
    assert(after@.subrange(r.start() as int, r.end() as int) =~= r.bytes());
    assert(after@.subrange(0, before@.len() as int) =~= before@);
}

} // verus!
