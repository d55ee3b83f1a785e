//! The list that a piece table keeps its pieces in, together with the bookkeeping of the locks
//! that readers and writers of the list and of its elements take.
use vstd::prelude::*;

verus! {

/// The error type for locking operations.
#[derive(Debug, Clone, Copy, PartialEq, Eq, Structural)]
pub enum LockError {
    /// There is already an incompatible lock on what you want to lock.
    FailedLock,
    /// A lock was poisoned.
    Poisoned,
}

/// A state machine to control what kinds of locks can be made at what time.
#[derive(Debug, Clone, Copy)]
pub enum TableState {
    /// There are no references to the list.
    Unshared,
    /// The entire list only has immutable borrows: (full list borrows, single item immutable
    /// borrows).
    Shared((usize, usize)),
    /// The entire list isn't borrowed: (single item immutable borrows, single item mutable
    /// borrows).
    SharedMuts((usize, usize)),
    /// The entire list is mutably borrowed: (immutable element borrows, mutable element borrows).
    Exclusive((usize, usize)),
}

impl TableState {
    /// A state the machine can be in: a shared list has at least one full borrow.
    pub open spec fn valid(self) -> bool {
        match self {
            TableState::Shared((full, _)) => full >= 1,
            _ => true,
        }
    }

    /// The number of read locks on the full list.
    pub open spec fn full_reads(self) -> nat {
        match self {
            TableState::Shared((full, _)) => full as nat,
            _ => 0,
        }
    }

    /// Whether the full list is locked for writing.
    pub open spec fn full_write(self) -> bool {
        self is Exclusive
    }

    /// The number of read locks on single items.
    pub open spec fn item_reads(self) -> nat {
        match self {
            TableState::Unshared => 0,
            TableState::Shared((_, reads)) => reads as nat,
            TableState::SharedMuts((reads, _)) => reads as nat,
            TableState::Exclusive((reads, _)) => reads as nat,
        }
    }

    /// The number of write locks on single items.
    pub open spec fn item_writes(self) -> nat {
        match self {
            TableState::SharedMuts((_, writes)) => writes as nat,
            TableState::Exclusive((_, writes)) => writes as nat,
            _ => 0,
        }
    }

    /// The state after an item is locked for reading.
    pub open spec fn after_lock_single(self) -> TableState {
        match self {
            TableState::Unshared => TableState::SharedMuts((1, 0)),
            TableState::Shared((full, reads)) => TableState::Shared((full, (reads + 1) as usize)),
            TableState::SharedMuts((reads, writes)) => TableState::SharedMuts(
                ((reads + 1) as usize, writes),
            ),
            TableState::Exclusive((reads, writes)) => TableState::Exclusive(
                ((reads + 1) as usize, writes),
            ),
        }
    }

    /// The state after an item read lock is released.
    pub open spec fn after_drop_single(self) -> TableState {
        match self {
            TableState::Unshared => TableState::Unshared,
            TableState::Shared((full, reads)) => TableState::Shared((full, (reads - 1) as usize)),
            TableState::SharedMuts((reads, writes)) => TableState::SharedMuts(
                ((reads - 1) as usize, writes),
            ),
            TableState::Exclusive((reads, writes)) => TableState::Exclusive(
                ((reads - 1) as usize, writes),
            ),
        }
    }

    /// The state after an item is locked for writing, when that succeeds.
    pub open spec fn after_lock_single_mut(self) -> TableState {
        match self {
            TableState::Unshared => TableState::SharedMuts((0, 1)),
            TableState::Shared(_) => self,
            TableState::SharedMuts((reads, writes)) => TableState::SharedMuts(
                (reads, (writes + 1) as usize),
            ),
            TableState::Exclusive((reads, writes)) => TableState::Exclusive(
                (reads, (writes + 1) as usize),
            ),
        }
    }

    /// The state after an item write lock is released.
    pub open spec fn after_drop_single_mut(self) -> TableState {
        match self {
            TableState::SharedMuts((reads, writes)) => TableState::SharedMuts(
                (reads, (writes - 1) as usize),
            ),
            TableState::Exclusive((reads, writes)) => TableState::Exclusive(
                (reads, (writes - 1) as usize),
            ),
            _ => self,
        }
    }

    /// Whether the full list can be locked for reading: no write lock is held.
    pub open spec fn can_lock_full(self) -> bool {
        !self.full_write() && self.item_writes() == 0
    }

    /// The state after the full list is locked for reading, when that succeeds.
    pub open spec fn after_lock_full(self) -> TableState {
        match self {
            TableState::Unshared => TableState::Shared((1, 0)),
            TableState::Shared((full, reads)) => TableState::Shared(((full + 1) as usize, reads)),
            TableState::SharedMuts((reads, _)) => TableState::Shared((1, reads)),
            TableState::Exclusive(_) => self,
        }
    }

    /// The state after a full-list read lock is released.
    pub open spec fn after_drop_full(self) -> TableState {
        match self {
            TableState::Shared((full, reads)) => if full == 1 {
                if reads == 0 {
                    TableState::Unshared
                } else {
                    TableState::SharedMuts((reads, 0))
                }
            } else {
                TableState::Shared(((full - 1) as usize, reads))
            },
            _ => self,
        }
    }

    /// Whether the full list can be locked for writing: no full-list lock is held.
    pub open spec fn can_lock_full_mut(self) -> bool {
        !(self is Shared) && !(self is Exclusive)
    }

    /// The state after the full list is locked for writing, when that succeeds.
    pub open spec fn after_lock_full_mut(self) -> TableState {
        match self {
            TableState::Unshared => TableState::Exclusive((0, 0)),
            TableState::SharedMuts((reads, writes)) => TableState::Exclusive((reads, writes)),
            _ => self,
        }
    }

    /// The state after a full-list write lock is released.
    pub open spec fn after_drop_full_mut(self) -> TableState {
        match self {
            TableState::Exclusive((reads, writes)) => TableState::SharedMuts((reads, writes)),
            _ => self,
        }
    }

    /// Records a read lock on a single item.
    pub fn lock_single(&mut self)
        requires
            old(self).valid(),
            old(self).item_reads() < usize::MAX,
        ensures
            *final(self) == old(self).after_lock_single(),
    {
        *self = match *self {
            TableState::Unshared => TableState::SharedMuts((1, 0)),
            TableState::Shared((full, reads)) => TableState::Shared((full, reads + 1)),
            TableState::SharedMuts((reads, writes)) => TableState::SharedMuts((reads + 1, writes)),
            TableState::Exclusive((reads, writes)) => TableState::Exclusive((reads + 1, writes)),
        };
    }

    /// Releases a read lock on a single item.
    pub fn drop_single(&mut self)
        requires
            old(self).valid(),
            old(self).item_reads() >= 1,
        ensures
            *final(self) == old(self).after_drop_single(),
    {
        *self = match *self {
            TableState::Unshared => TableState::Unshared,
            TableState::Shared((full, reads)) => TableState::Shared((full, reads - 1)),
            TableState::SharedMuts((reads, writes)) => TableState::SharedMuts((reads - 1, writes)),
            TableState::Exclusive((reads, writes)) => TableState::Exclusive((reads - 1, writes)),
        };
    }

    /// Records a write lock on a single item; fails while the full list is read-locked.
    pub fn lock_single_mut(&mut self) -> (r: Result<(), LockError>)
        requires
            old(self).valid(),
            old(self).item_writes() < usize::MAX,
        ensures
            r is Ok <==> !(*old(self) is Shared),
            r is Err ==> r == Err::<(), LockError>(LockError::FailedLock),
            *final(self) == old(self).after_lock_single_mut(),
    {
        match *self {
            TableState::Unshared => {
                *self = TableState::SharedMuts((0, 1));
                Ok(())
            },
            TableState::Shared(_) => Err(LockError::FailedLock),
            TableState::SharedMuts((reads, writes)) => {
                *self = TableState::SharedMuts((reads, writes + 1));
                Ok(())
            },
            TableState::Exclusive((reads, writes)) => {
                *self = TableState::Exclusive((reads, writes + 1));
                Ok(())
            },
        }
    }

    /// Releases a write lock on a single item.
    pub fn drop_single_mut(&mut self)
        requires
            old(self).item_writes() >= 1,
        ensures
            *final(self) == old(self).after_drop_single_mut(),
    {
        *self = match *self {
            TableState::SharedMuts((reads, writes)) => TableState::SharedMuts((reads, writes - 1)),
            TableState::Exclusive((reads, writes)) => TableState::Exclusive((reads, writes - 1)),
            other => other,
        };
    }

    /// Records a read lock on the full list; fails while anything holds a write lock.
    pub fn lock_full(&mut self) -> (r: Result<(), LockError>)
        requires
            old(self).valid(),
            old(self).full_reads() < usize::MAX,
        ensures
            r is Ok <==> old(self).can_lock_full(),
            r is Err ==> r == Err::<(), LockError>(LockError::FailedLock),
            r is Ok ==> *final(self) == old(self).after_lock_full(),
            r is Err ==> *final(self) == *old(self),
    {
        match *self {
            TableState::Unshared => {
                *self = TableState::Shared((1, 0));
                Ok(())
            },
            TableState::Shared((full, reads)) => {
                *self = TableState::Shared((full + 1, reads));
                Ok(())
            },
            TableState::SharedMuts((reads, writes)) => {
                if writes >= 1 {
                    Err(LockError::FailedLock)
                } else {
                    *self = TableState::Shared((1, reads));
                    Ok(())
                }
            },
            TableState::Exclusive(_) => Err(LockError::FailedLock),
        }
    }

    /// Releases a read lock on the full list.
    pub fn drop_full(&mut self)
        requires
            old(self).valid(),
            *old(self) is Shared,
        ensures
            *final(self) == old(self).after_drop_full(),
    {
        *self = match *self {
            TableState::Shared((full, reads)) => if full == 1 {
                if reads == 0 {
                    TableState::Unshared
                } else {
                    TableState::SharedMuts((reads, 0))
                }
            } else {
                TableState::Shared((full - 1, reads))
            },
            other => other,
        };
    }

    /// Records a write lock on the full list; fails while a full-list lock is held.
    pub fn lock_full_mut(&mut self) -> (r: Result<(), LockError>)
        requires
            old(self).valid(),
        ensures
            r is Ok <==> old(self).can_lock_full_mut(),
            r is Err ==> r == Err::<(), LockError>(LockError::FailedLock),
            *final(self) == old(self).after_lock_full_mut(),
    {
        match *self {
            TableState::Unshared => {
                *self = TableState::Exclusive((0, 0));
                Ok(())
            },
            TableState::SharedMuts((reads, writes)) => {
                *self = TableState::Exclusive((reads, writes));
                Ok(())
            },
            _ => Err(LockError::FailedLock),
        }
    }

    /// Releases the write lock on the full list.
    pub fn drop_full_mut(&mut self)
        requires
            *old(self) is Exclusive,
        ensures
            *final(self) == old(self).after_drop_full_mut(),
    {
        *self = match *self {
            TableState::Exclusive((reads, writes)) => TableState::SharedMuts((reads, writes)),
            other => other,
        };
    }
}


/// The numbers of locks a state records: read locks on the full list, whether the full list is
/// write-locked, read locks on items and write locks on items.
pub open spec fn lock_counts(s: TableState) -> (nat, bool, nat, nat) {
    (s.full_reads(), s.full_write(), s.item_reads(), s.item_writes())
}

/// Taking a lock and releasing it again leaves the locks recorded as they were, and each step
/// keeps the state valid.
pub proof fn law_lock_release_counts(s: TableState)
    requires
        s.valid(),
        s.full_reads() < usize::MAX,
        s.item_reads() < usize::MAX,
        s.item_writes() < usize::MAX,
    ensures
        s.after_lock_single().valid(),
        lock_counts(s.after_lock_single().after_drop_single()) == lock_counts(s),
        !(s is Shared) ==> s.after_lock_single_mut().valid() && lock_counts(
            s.after_lock_single_mut().after_drop_single_mut(),
        ) == lock_counts(s),
        s.can_lock_full() ==> s.after_lock_full().valid() && lock_counts(
            s.after_lock_full().after_drop_full(),
        ) == lock_counts(s),
        s.can_lock_full_mut() ==> s.after_lock_full_mut().valid() && lock_counts(
            s.after_lock_full_mut().after_drop_full_mut(),
        ) == lock_counts(s),
{
}

/// A lock and its release give back the very state they started from, but from a state with no
/// lock at all: an item lock or a full write lock leave an empty `SharedMuts` behind there. A
/// full read lock does the reverse, and leaves `Unshared` behind an empty `SharedMuts`.
pub proof fn law_lock_release_state(s: TableState)
    requires
        s.valid(),
        s.full_reads() < usize::MAX,
        s.item_reads() < usize::MAX,
        s.item_writes() < usize::MAX,
    ensures
        !(s is Unshared) ==> s.after_lock_single().after_drop_single() == s,
        !(s is Unshared) && !(s is Shared) ==> s.after_lock_single_mut().after_drop_single_mut()
            == s,
        !(s is Unshared) && s.can_lock_full_mut() ==> s.after_lock_full_mut().after_drop_full_mut()
            == s,
        s.can_lock_full() && !(s matches TableState::SharedMuts((0, 0))) ==> s.after_lock_full().after_drop_full() == s,
        s is Unshared ==> s.after_lock_single().after_drop_single() == TableState::SharedMuts((0, 0))
            && s.after_lock_single_mut().after_drop_single_mut() == TableState::SharedMuts((0, 0))
            && s.after_lock_full_mut().after_drop_full_mut() == TableState::SharedMuts((0, 0)),
        s matches TableState::SharedMuts((0, 0)) ==> s.after_lock_full().after_drop_full()
            == TableState::Unshared,
{
}

/// Releasing a full read lock right after taking it gives back the state from before, but that
/// an empty `SharedMuts` comes back as the equivalent `Unshared`.
pub proof fn law_drop_full_undoes_lock_full(s: TableState)
    requires
        s.valid(),
        s.can_lock_full(),
        s.full_reads() < usize::MAX,
    ensures
        s.after_lock_full().valid(),
        s.after_lock_full().after_drop_full() == (if s matches TableState::SharedMuts((0, 0)) {
            TableState::Unshared
        } else {
            s
        }),
{
}

/// While the full list is locked for reading, no item can be locked for writing, and taking an
/// item's write lock keeps the full list from being locked for reading.
pub proof fn law_item_write_excludes_full_read(s: TableState)
    requires
        s.valid(),
        s.full_reads() < usize::MAX,
        s.item_writes() < usize::MAX,
    ensures
        s.can_lock_full() ==> s.after_lock_full() is Shared,
        !(s is Shared) ==> !s.after_lock_single_mut().can_lock_full(),
{
}

/// A read lock and a write lock on the full list exclude each other: once one is taken, the
/// other cannot be.
pub proof fn law_full_locks_exclusive(s: TableState)
    requires
        s.valid(),
        s.full_reads() < usize::MAX,
    ensures
        s.can_lock_full() ==> !s.after_lock_full().can_lock_full_mut(),
        s.can_lock_full_mut() ==> !s.after_lock_full_mut().can_lock_full(),
        s.can_lock_full_mut() ==> !s.after_lock_full_mut().can_lock_full_mut(),
{
}


/// Holds one item of a `Table`.
#[derive(Debug)]
pub struct TableLocker<T> {
    value: T,
}

impl<T> TableLocker<T> {
    /// The item held.
    pub closed spec fn value(&self) -> T {
        self.value
    }

    /// Holds `value`.
    pub fn new(value: T) -> (r: Self)
        ensures
            r.value() == value,
    {
        TableLocker { value }
    }

    /// Reads the item.
    pub fn read(&self) -> (r: &T)
        ensures
            *r == self.value(),
    {
        &self.value
    }

    /// Writes `value` as the item under a write lock recorded in `state`, taken and released
    /// around the write, and returns the item it replaces; fails, changing nothing, while the
    /// full list is locked for reading.
    pub fn write(&mut self, state: &mut TableState, value: T) -> (r: Result<T, LockError>)
        requires
            old(state).valid(),
            old(state).item_writes() < usize::MAX,
        ensures
            r is Ok <==> !(*old(state) is Shared),
            r matches Ok(v) ==> v == old(self).value() && final(self).value() == value
                && *final(state) == old(state).after_lock_single_mut().after_drop_single_mut(),
            r matches Err(e) ==> e == LockError::FailedLock && final(self).value() == old(
                self,
            ).value() && *final(state) == *old(state),
    {
        match state.lock_single_mut() {
            Ok(()) => {
                let mut v = value;
                std::mem::swap(&mut self.value, &mut v);
                state.drop_single_mut();
                Ok(v)
            },
            Err(e) => Err(e),
        }
    }
}

/// An element of a `Table`: an item together with the key that identifies it in its table
/// for as long as it lives there, wherever it moves.
#[derive(Debug)]
pub struct InnerTable<T> {
    key: usize,
    inner: TableLocker<T>,
}

impl<T> InnerTable<T> {
    /// The key of the element.
    pub closed spec fn key(&self) -> usize {
        self.key
    }

    /// The item of the element.
    pub closed spec fn value(&self) -> T {
        self.inner.value()
    }

    /// Creates a builder for a table.
    pub fn builder() -> (r: InnerTableBuilder<T>)
        ensures
            r.wf(),
            r.items() == Seq::<T>::empty(),
            r.next_key() == 0,
    {
        InnerTableBuilder { inner: Vec::new(), next_key: 0 }
    }

    /// An element holding `value` under `key`.
    pub fn new(value: T, key: usize) -> (r: Self)
        ensures
            r.value() == value,
            r.key() == key,
    {
        InnerTable { key, inner: TableLocker::new(value) }
    }

    /// Reads the item.
    pub fn read(&self) -> (r: &T)
        ensures
            *r == self.value(),
    {
        self.inner.read()
    }

    /// Writes `value` as the item under a write lock recorded in `state`, the lock state of
    /// the table it belongs to, and returns the item it replaces; fails, changing nothing, while
    /// the full list is locked for reading.
    pub fn write(&mut self, state: &mut TableState, value: T) -> (r: Result<T, LockError>)
        requires
            old(state).valid(),
            old(state).item_writes() < usize::MAX,
        ensures
            final(self).key() == old(self).key(),
            r is Ok <==> !(*old(state) is Shared),
            r matches Ok(v) ==> v == old(self).value() && final(self).value() == value
                && *final(state) == old(state).after_lock_single_mut().after_drop_single_mut(),
            r matches Err(e) ==> e == LockError::FailedLock && final(self).value() == old(
                self,
            ).value() && *final(state) == *old(state),
    {
        self.inner.write(state, value)
    }

    /// Returns the key of the element.
    pub fn get_key(&self) -> (r: usize)
        ensures
            r == self.key(),
    {
        self.key
    }
}

/// The items of a sequence of elements.
pub open spec fn items_of<T>(elems: Seq<InnerTable<T>>) -> Seq<T> {
    elems.map_values(|e: InnerTable<T>| e.value())
}

/// The keys of a sequence of elements.
pub open spec fn keys_of<T>(elems: Seq<InnerTable<T>>) -> Seq<usize> {
    elems.map_values(|e: InnerTable<T>| e.key())
}

/// The keys are pairwise distinct and all lie below `next`.
pub open spec fn keys_fresh(keys: Seq<usize>, next: usize) -> bool {
    &&& forall|i: int, j: int| 0 <= i < j < keys.len() ==> keys[i] != keys[j]
    &&& forall|i: int| 0 <= i < keys.len() ==> keys[i] < next
}

/// A builder for a `Table`.
#[derive(Debug)]
pub struct InnerTableBuilder<T> {
    inner: Vec<InnerTable<T>>,
    next_key: usize,
}

impl<T> InnerTableBuilder<T> {
    /// The items pushed so far.
    pub closed spec fn items(&self) -> Seq<T> {
        items_of(self.inner@)
    }

    /// The key the next pushed item gets.
    pub closed spec fn next_key(&self) -> usize {
        self.next_key
    }

    /// The builder's keys are fresh.
    pub closed spec fn wf(&self) -> bool {
        &&& keys_fresh(keys_of(self.inner@), self.next_key)
        &&& self.next_key == self.inner@.len()
    }

    /// Appends a value to the list.
    pub fn push(&mut self, x: T)
        requires
            old(self).wf(),
            old(self).next_key() < usize::MAX,
        ensures
            final(self).wf(),
            final(self).items() == old(self).items().push(x),
            final(self).next_key() == old(self).next_key() + 1,
    {
        let key = self.next_key;
        self.inner.push(InnerTable::new(x, key));
        self.next_key = key + 1;
        proof {
            assert(items_of(self.inner@) =~= old(self).items().push(x));
            assert(keys_of(self.inner@) =~= keys_of(old(self).inner@).push(key));
        }
    }
}

/// A token standing for a read lock on a full table.
#[derive(Debug)]
pub struct TableReader {
    held: bool,
}

impl TableReader {
    /// Returns the elements of the table, in order.
    pub fn read<'a, T>(&self, table: &'a Table<T>) -> (r: &'a [InnerTable<T>])
        ensures
            r@ == table.elems(),
    {
        table.inner.as_slice()
    }
}

/// A token standing for a read lock on one item of a table: the item cannot be written while
/// it is held.
#[derive(Debug)]
pub struct TableLockReader {
    index: usize,
}

impl TableLockReader {
    /// The position of the locked item.
    pub closed spec fn index(&self) -> usize {
        self.index
    }

    /// Reads the locked item of `table`.
    pub fn read<'a, T>(&self, table: &'a Table<T>) -> (r: &'a T)
        requires
            self.index() < table.elems().len(),
        ensures
            *r == table.items()[self.index() as int],
    {
        proof {
            table.lemma_lengths();
        }
        table.inner[self.index].read()
    }
}

/// A token standing for a write lock on one item of a table: the full list cannot be read
/// while it is held.
#[derive(Debug)]
pub struct TableLockWriter {
    index: usize,
}

impl TableLockWriter {
    /// The position of the locked item.
    pub closed spec fn index(&self) -> usize {
        self.index
    }

    /// Writes `value` as the locked item of `table` and returns the item it replaces.
    pub fn write<T>(&self, table: &mut Table<T>, value: T) -> (r: T)
        requires
            old(table).wf(),
            self.index() < old(table).elems().len(),
            old(table).lock_state().item_writes() >= 1,
        ensures
            final(table).wf(),
            r == old(table).items()[self.index() as int],
            final(table).items() == old(table).items().update(self.index() as int, value),
            final(table).keys() == old(table).keys(),
            final(table).next_key() == old(table).next_key(),
            final(table).lock_state() == old(table).lock_state(),
    {
        table.replace(self.index, value)
    }
}

/// A token standing for a write lock on the order of a full table.
#[derive(Debug)]
pub struct TableWriter {
    held: bool,
}

/// A list of items which can be read and reordered, with the bookkeeping of the locks held on
/// it and on its items.
#[derive(Debug)]
pub struct Table<T> {
    inner: Vec<InnerTable<T>>,
    state: TableState,
    next_key: usize,
}

impl<T> Table<T> {
    /// The elements of the table, in order.
    pub closed spec fn elems(&self) -> Seq<InnerTable<T>> {
        self.inner@
    }

    /// The items of the table, in order.
    pub open spec fn items(&self) -> Seq<T> {
        items_of(self.elems())
    }

    /// The keys of the elements, in order.
    pub open spec fn keys(&self) -> Seq<usize> {
        keys_of(self.elems())
    }

    /// There are as many items and keys as elements.
    pub proof fn lemma_lengths(&self)
        ensures
            self.items().len() == self.elems().len(),
            self.keys().len() == self.elems().len(),
    {
    }

    /// The state of the locks.
    pub closed spec fn lock_state(&self) -> TableState {
        self.state
    }

    /// The key the next inserted item gets.
    pub closed spec fn next_key(&self) -> usize {
        self.next_key
    }

    /// The keys are distinct and below the next key, and the lock state is valid.
    pub open spec fn wf(&self) -> bool {
        &&& keys_fresh(self.keys(), self.next_key())
        &&& self.lock_state().valid()
    }

    /// Creates a new table from a builder.
    pub fn new(builder: InnerTableBuilder<T>) -> (r: Self)
        requires
            builder.wf(),
        ensures
            r.wf(),
            r.items() == builder.items(),
            r.next_key() == builder.next_key(),
            r.lock_state() == TableState::Unshared,
    {
        Table { inner: builder.inner, state: TableState::Unshared, next_key: builder.next_key }
    }

    /// Creates a table holding the given items in order.
    pub fn from_vec(items: Vec<T>) -> (r: Self)
        ensures
            r.wf(),
            r.items() == items@,
            r.next_key() == items@.len(),
            r.lock_state() == TableState::Unshared,
    {
        let mut items = items;
        let ghost all = items@;
        let n = items.len();
        let mut rev: Vec<T> = Vec::new();
        while items.len() > 0
            invariant
                items@.len() + rev@.len() == n,
                n == all.len(),
                all == items@ + rev@.reverse(),
            decreases items.len(),
        {
            let ghost before = items@;
            let x = items.pop().unwrap();
            proof {
                assert(all =~= items@ + rev@.push(x).reverse());
            }
            rev.push(x);
        }
        let mut builder = InnerTable::builder();
        while rev.len() > 0
            invariant
                builder.wf(),
                builder.next_key() == builder.items().len(),
                builder.items().len() + rev@.len() == n,
                all == builder.items() + rev@.reverse(),
                n == all.len(),
            decreases rev.len(),
        {
            let x = rev.pop().unwrap();
            proof {
                assert(rev@.push(x).reverse() =~= seq![x] + rev@.reverse());
                assert(all =~= builder.items().push(x) + rev@.reverse());
            }
            builder.push(x);
        }
        proof {
            assert(all =~= builder.items());
        }
        Table::new(builder)
    }

    /// Locks the full list for reading. This fails while anything holds a write lock.
    pub fn read_full(&mut self) -> (r: Result<TableReader, LockError>)
        requires
            old(self).wf(),
            old(self).lock_state().full_reads() < usize::MAX,
        ensures
            final(self).wf(),
            final(self).elems() == old(self).elems(),
            final(self).next_key() == old(self).next_key(),
            r is Ok <==> old(self).lock_state().can_lock_full(),
            r is Ok ==> final(self).lock_state() == old(self).lock_state().after_lock_full(),
            r is Err ==> final(self).lock_state() == old(self).lock_state(),
            r matches Err(e) ==> e == LockError::FailedLock,
    {
        match self.state.lock_full() {
            Ok(()) => Ok(TableReader { held: true }),
            Err(e) => Err(e),
        }
    }

    /// Locks the order of the full list for writing. This fails while a full-list lock is held.
    pub fn write_full(&mut self) -> (r: Result<TableWriter, LockError>)
        requires
            old(self).wf(),
        ensures
            final(self).wf(),
            final(self).elems() == old(self).elems(),
            final(self).next_key() == old(self).next_key(),
            r is Ok <==> old(self).lock_state().can_lock_full_mut(),
            final(self).lock_state() == old(self).lock_state().after_lock_full_mut(),
            r matches Err(e) ==> e == LockError::FailedLock,
    {
        match self.state.lock_full_mut() {
            Ok(()) => Ok(TableWriter { held: true }),
            Err(e) => Err(e),
        }
    }

    /// Releases a read lock on the full list.
    pub fn release_reader(&mut self, reader: TableReader)
        requires
            old(self).wf(),
            old(self).lock_state() is Shared,
        ensures
            final(self).wf(),
            final(self).elems() == old(self).elems(),
            final(self).next_key() == old(self).next_key(),
            final(self).lock_state() == old(self).lock_state().after_drop_full(),
    {
        self.state.drop_full();
    }

    /// Releases the write lock on the order of the full list.
    pub fn release_writer(&mut self, writer: TableWriter)
        requires
            old(self).wf(),
            old(self).lock_state() is Exclusive,
        ensures
            final(self).wf(),
            final(self).elems() == old(self).elems(),
            final(self).next_key() == old(self).next_key(),
            final(self).lock_state() == old(self).lock_state().after_drop_full_mut(),
    {
        self.state.drop_full_mut();
    }

    /// Locks item `i` for reading.
    pub fn read_item(&mut self, i: usize) -> (r: TableLockReader)
        requires
            old(self).wf(),
            i < old(self).elems().len(),
            old(self).lock_state().item_reads() < usize::MAX,
        ensures
            final(self).wf(),
            final(self).elems() == old(self).elems(),
            final(self).next_key() == old(self).next_key(),
            final(self).lock_state() == old(self).lock_state().after_lock_single(),
            r.index() == i,
    {
        self.state.lock_single();
        TableLockReader { index: i }
    }

    /// Locks item `i` for writing. This fails, changing nothing, while the full list is locked
    /// for reading.
    pub fn write_item(&mut self, i: usize) -> (r: Result<TableLockWriter, LockError>)
        requires
            old(self).wf(),
            i < old(self).elems().len(),
            old(self).lock_state().item_writes() < usize::MAX,
        ensures
            final(self).wf(),
            final(self).elems() == old(self).elems(),
            final(self).next_key() == old(self).next_key(),
            r is Ok <==> !(old(self).lock_state() is Shared),
            r matches Ok(w) ==> w.index() == i && final(self).lock_state() == old(
                self,
            ).lock_state().after_lock_single_mut(),
            r matches Err(e) ==> e == LockError::FailedLock && final(self).lock_state() == old(
                self,
            ).lock_state(),
    {
        match self.state.lock_single_mut() {
            Ok(()) => Ok(TableLockWriter { index: i }),
            Err(e) => Err(e),
        }
    }

    /// Releases a read lock on an item.
    pub fn release_item_reader(&mut self, reader: TableLockReader)
        requires
            old(self).wf(),
            old(self).lock_state().item_reads() >= 1,
        ensures
            final(self).wf(),
            final(self).elems() == old(self).elems(),
            final(self).next_key() == old(self).next_key(),
            final(self).lock_state() == old(self).lock_state().after_drop_single(),
    {
        self.state.drop_single();
    }

    /// Releases a write lock on an item.
    pub fn release_item_writer(&mut self, writer: TableLockWriter)
        requires
            old(self).wf(),
            old(self).lock_state().item_writes() >= 1,
        ensures
            final(self).wf(),
            final(self).elems() == old(self).elems(),
            final(self).next_key() == old(self).next_key(),
            final(self).lock_state() == old(self).lock_state().after_drop_single_mut(),
    {
        self.state.drop_single_mut();
    }

    /// Returns the state of the locks.
    pub fn state(&self) -> (r: TableState)
        ensures
            r == self.lock_state(),
    {
        self.state
    }

    /// The key the next inserted item gets.
    pub fn upcoming_key(&self) -> (r: usize)
        ensures
            r == self.next_key(),
    {
        self.next_key
    }

    /// The elements of the table, in order.
    pub fn elements(&self) -> (r: &[InnerTable<T>])
        ensures
            r@ == self.elems(),
    {
        self.inner.as_slice()
    }

    /// The number of items.
    pub fn len(&self) -> (r: usize)
        ensures
            r == self.elems().len(),
    {
        self.inner.len()
    }

    /// The element at position `i`.
    pub fn get(&self, i: usize) -> (r: &InnerTable<T>)
        requires
            i < self.elems().len(),
        ensures
            *r == self.elems()[i as int],
    {
        &self.inner[i]
    }

    /// The position of the element with the given key, if there is one.
    pub fn position_of(&self, key: usize) -> (r: Option<usize>)
        ensures
            r matches Some(i) ==> i < self.keys().len() && self.keys()[i as int] == key && forall|
                j: int,
            | 0 <= j < i ==> self.keys()[j] != key,
            r is None ==> !self.keys().contains(key),
    {
        let mut i: usize = 0;
        while i < self.inner.len()
            invariant
                i <= self.inner@.len(),
                forall|j: int| 0 <= j < i ==> self.keys()[j] != key,
            decreases self.inner@.len() - i,
        {
            if self.inner[i].key == key {
                return Some(i);
            }
            i = i + 1;
        }
        None
    }

    /// Inserts an item at position `i` under a fresh key, which it returns.
    pub fn insert(&mut self, i: usize, value: T) -> (r: usize)
        requires
            old(self).wf(),
            old(self).lock_state() is Exclusive,
            i <= old(self).elems().len(),
            old(self).next_key() < usize::MAX,
        ensures
            final(self).wf(),
            r == old(self).next_key(),
            final(self).next_key() == old(self).next_key() + 1,
            final(self).items() == old(self).items().insert(i as int, value),
            final(self).keys() == old(self).keys().insert(i as int, r),
            final(self).elems().len() == old(self).elems().len() + 1,
            final(self).lock_state() == old(self).lock_state(),
    {
        let key = self.next_key;
        self.inner.insert(i, InnerTable::new(value, key));
        self.next_key = key + 1;
        proof {
            assert(self.items() =~= old(self).items().insert(i as int, value));
            assert(self.keys() =~= old(self).keys().insert(i as int, key));
        }
        key
    }

    /// Replaces the item at position `i`, keeping its key, and returns the old item. Writing an
    /// item needs a write lock on it, which cannot be had while the full list is locked for
    /// reading.
    pub fn replace(&mut self, i: usize, value: T) -> (r: T)
        requires
            old(self).wf(),
            !(old(self).lock_state() is Shared),
            i < old(self).elems().len(),
        ensures
            final(self).wf(),
            r == old(self).items()[i as int],
            final(self).next_key() == old(self).next_key(),
            final(self).items() == old(self).items().update(i as int, value),
            final(self).keys() == old(self).keys(),
            final(self).elems().len() == old(self).elems().len(),
            final(self).lock_state() == old(self).lock_state(),
    {
        let key = self.inner[i].key;
        let mut elem = InnerTable::new(value, key);
        self.inner.set_and_swap(i, &mut elem);
        proof {
            assert(self.items() =~= old(self).items().update(i as int, value));
            assert(self.keys() =~= old(self).keys());
        }
        elem.inner.value
    }

    /// Moves the element at position `from` so that it ends up at position `to`.
    pub fn move_item(&mut self, from: usize, to: usize)
        requires
            old(self).wf(),
            old(self).lock_state() is Exclusive,
            from < old(self).elems().len(),
            to < old(self).elems().len(),
        ensures
            final(self).wf(),
            final(self).next_key() == old(self).next_key(),
            final(self).elems() == old(self).elems().remove(from as int).insert(
                to as int,
                old(self).elems()[from as int],
            ),
            final(self).lock_state() == old(self).lock_state(),
    {
        let elem = self.inner.remove(from);
        self.inner.insert(to, elem);
        proof {
            let ks = self.keys();
            let old_ks = old(self).keys();
            assert(ks =~= old_ks.remove(from as int).insert(to as int, old_ks[from as int]));
            assert forall|a: int, b: int| 0 <= a < b < ks.len() implies ks[a] != ks[b] by {
                let pa = if a < to { if a < from { a } else { a + 1 } } else if a == to { from as int } else { if a - 1 < from { a - 1 } else { a } };
                let pb = if b < to { if b < from { b } else { b + 1 } } else if b == to { from as int } else { if b - 1 < from { b - 1 } else { b } };
                assert(ks[a] == old_ks[pa]);
                assert(ks[b] == old_ks[pb]);
            }
        }
    }
}

} // verus!
