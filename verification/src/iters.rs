//! Reading a sequence of items in pieces: as far as a predicate holds, leaving the first item
//! it rejects in place, or in chunks of a fixed size.
use vstd::prelude::*;

verus! {

broadcast use vstd::seq::group_seq_axioms;

/// Items read front to back, where the next item can be looked at without taking it.
#[derive(Debug)]
pub struct Peekable<T> {
    items: Vec<T>,
    pos: usize,
}

impl<T> Peekable<T> {
    /// The position of the next item lies within the items.
    #[verifier::type_invariant]
    closed spec fn wf(&self) -> bool {
        self.pos <= self.items@.len()
    }
}

impl<T: Copy> Peekable<T> {
    /// The items not yet taken.
    pub closed spec fn rest(&self) -> Seq<T> {
        self.items@.skip(self.pos as int)
    }

    /// Reads `items` from the front.
    pub fn new(items: Vec<T>) -> (r: Self)
        ensures
            r.rest() == items@,
    {
        let r = Peekable { items, pos: 0 };
        proof {
            assert(r.items@.skip(0) =~= r.items@);
        }
        r
    }

    /// The next item, left in place.
    pub fn peek(&self) -> (r: Option<T>)
        ensures
            self.rest().len() == 0 ==> r is None,
            self.rest().len() > 0 ==> r == Some(self.rest()[0]),
    {
        proof {
            use_type_invariant(self);
        }
        if self.pos < self.items.len() {
            Some(self.items[self.pos])
        } else {
            None
        }
    }

    /// Takes the next item.
    pub fn next(&mut self) -> (r: Option<T>)
        ensures
            old(self).rest().len() == 0 ==> r is None && final(self).rest() == old(self).rest(),
            old(self).rest().len() > 0 ==> r == Some(old(self).rest()[0]) && final(self).rest()
                == old(self).rest().drop_first(),
    {
        proof {
            use_type_invariant(&*self);
        }
        if self.pos < self.items.len() {
            let x = self.items[self.pos];
            self.pos = self.pos + 1;
            proof {
                assert(self.rest() =~= old(self).rest().drop_first());
            }
            Some(x)
        } else {
            None
        }
    }
}

/// Taking items while a predicate holds of them, leaving the first one it rejects in place.
pub trait InnerIteratorExt<T> {
    /// Takes the items from the front for as long as `predicate` accepts them.
    fn take_while_ref<P: Fn(&T) -> bool>(&mut self, predicate: P) -> Vec<T>
        requires
            forall|x: &T| #[trigger] predicate.requires((x,)),
    ;
}

impl<T: Copy> InnerIteratorExt<T> for Peekable<T> {
    fn take_while_ref<P: Fn(&T) -> bool>(&mut self, predicate: P) -> (r: Vec<T>)
        ensures
            old(self).rest() == r@ + final(self).rest(),
            forall|i: int| 0 <= i < r@.len() ==> predicate.ensures((&r@[i],), true),
            final(self).rest().len() > 0 ==> predicate.ensures((&final(self).rest()[0],), false),
    {
        proof {
            use_type_invariant(&*self);
        }
        let mut taken: Vec<T> = Vec::new();
        let n = self.items.len();
        proof {
            assert(old(self).rest() =~= taken@ + self.rest());
        }
        while self.pos < n
            invariant
                n == self.items@.len(),
                self.items == old(self).items,
                old(self).pos <= self.pos <= n,
                old(self).rest() == taken@ + self.rest(),
                forall|x: &T| #[trigger] predicate.requires((x,)),
                forall|i: int| 0 <= i < taken@.len() ==> predicate.ensures((&taken@[i],), true),
            decreases n - self.pos,
        {
            let x = self.items[self.pos];
            if !predicate(&x) {
                proof {
                    assert(self.rest()[0] == x);
                }
                return taken;
            }
            let ghost before = taken@;
            taken.push(x);
            self.pos = self.pos + 1;
            proof {
                assert(old(self).rest() =~= taken@ + self.rest());
                assert(forall|i: int| 0 <= i < before.len() ==> taken@[i] == before[i]);
            }
        }
        taken
    }
}

/// Items read front to back in chunks of a fixed size; what is left over at the end, too short
/// for a chunk, is dropped.
#[derive(Debug)]
pub struct Chunks<T> {
    items: Vec<T>,
    pos: usize,
    size: usize,
}

impl<T> Chunks<T> {
    /// The position of the next item lies within the items.
    #[verifier::type_invariant]
    closed spec fn wf(&self) -> bool {
        self.pos <= self.items@.len()
    }
}

impl<T: Copy> Chunks<T> {
    /// The items not yet read.
    pub closed spec fn rest(&self) -> Seq<T> {
        self.items@.skip(self.pos as int)
    }

    /// The size of a chunk.
    pub closed spec fn chunk_size(&self) -> nat {
        self.size as nat
    }

    /// The next chunk: the next `chunk_size()` items, or `None` when fewer are left, which are
    /// then dropped.
    pub fn next(&mut self) -> (r: Option<Vec<T>>)
        ensures
            final(self).chunk_size() == old(self).chunk_size(),
            old(self).rest().len() >= old(self).chunk_size() ==> (r matches Some(c) && c@ == old(
                self,
            ).rest().take(old(self).chunk_size() as int)) && final(self).rest() == old(self).rest().skip(
                old(self).chunk_size() as int,
            ),
            old(self).rest().len() < old(self).chunk_size() ==> r is None && final(self).rest().len()
                == 0,
    {
        proof {
            use_type_invariant(&*self);
        }
        let n = self.items.len();
        if n - self.pos < self.size {
            self.pos = n;
            proof {
                assert(self.rest().len() == 0);
            }
            return None;
        }
        let mut chunk: Vec<T> = Vec::new();
        let start = self.pos;
        while self.pos < start + self.size
            invariant
                n == self.items@.len(),
                start + self.size <= n,
                start <= self.pos <= start + self.size,
                chunk@ == self.items@.subrange(start as int, self.pos as int),
                self.items == old(self).items,
                self.size == old(self).size,
                start == old(self).pos,
            decreases start + self.size - self.pos,
        {
            chunk.push(self.items[self.pos]);
            self.pos = self.pos + 1;
            proof {
                assert(chunk@ =~= self.items@.subrange(start as int, self.pos as int));
            }
        }
        proof {
            assert(chunk@ =~= old(self).rest().take(old(self).chunk_size() as int));
            assert(self.rest() =~= old(self).rest().skip(old(self).chunk_size() as int));
        }
        Some(chunk)
    }
}

/// Reading items in chunks.
pub trait IteratorExt<T> {
    /// Reads the items in chunks of `size` items.
    fn chunks(self, size: usize) -> Chunks<T>;
}

impl<T: Copy> IteratorExt<T> for Vec<T> {
    fn chunks(self, size: usize) -> (r: Chunks<T>)
        ensures
            r.rest() == self@,
            r.chunk_size() == size,
    {
        let r = Chunks { items: self, pos: 0, size };
        proof {
            assert(r.items@.skip(0) =~= r.items@);
        }
        r
    }
}

} // verus!
