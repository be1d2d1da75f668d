//! Ring buffer implementation, that does immutable reads.

use vstd::arithmetic::div_mod::{
    lemma_fundamental_div_mod, lemma_fundamental_div_mod_converse_mod,
    lemma_mod_division_less_than_divisor, lemma_small_mod,
};
use vstd::prelude::*;

verus! {

/// Stepping a counter by one steps its remainder by one, wrapping to zero at
/// the modulus.
proof fn lemma_counter_step(x: int, m: int)
    requires
        0 <= x,
        0 < m,
    ensures
        (x + 1) % m == if x % m + 1 == m {
            0int
        } else {
            x % m + 1
        },
{
    lemma_fundamental_div_mod(x, m);
    lemma_mod_division_less_than_divisor(x, m);
    let q = x / m;
    if x % m + 1 == m {
        assert(x + 1 == (q + 1) * m + 0) by (nonlinear_arith)
            requires
                x == m * q + x % m,
                x % m + 1 == m,
        ;
        lemma_fundamental_div_mod_converse_mod(x + 1, m, q + 1, 0);
    } else {
        assert(x + 1 == q * m + (x % m + 1)) by (nonlinear_arith)
            requires
                x == m * q + x % m,
        ;
        lemma_fundamental_div_mod_converse_mod(x + 1, m, q, x % m + 1);
    }
}

/// Two numbers less than a modulus apart have distinct remainders.
proof fn lemma_distinct_slots(a: int, b: int, m: int)
    requires
        0 < m,
        b < a,
        a - b < m,
    ensures
        a % m != b % m,
{
    lemma_fundamental_div_mod(a, m);
    lemma_fundamental_div_mod(b, m);
    if a % m == b % m {
        let qa = a / m;
        let qb = b / m;
        assert(a - b == (qa - qb) * m) by (nonlinear_arith)
            requires
                a == m * qa + a % m,
                b == m * qb + b % m,
                a % m == b % m,
        ;
        assert(false) by (nonlinear_arith)
            requires
                a - b == (qa - qb) * m,
                0 < a - b < m,
        ;
    }
}

/// Ringbuffer errors
#[derive(Debug, PartialEq)]
pub enum RBError {
    /// If a writer tries to write more data than the max size of the ringbuffer, in a single call
    TooLargeWrite,
    /// If attempting to use a reader for a different data type than the storage contains.
    InvalidReader,
}

/// A runtime tag for the element type of a buffer.
///
/// Relies on `std::any::TypeId`: the declaration makes the opaque std type
/// usable in signatures and fields; nothing is assumed about its values here.
#[verifier::external_type_specification]
#[verifier::external_body]
pub struct ExTypeId(core::any::TypeId);

/// Relies on `std::any::TypeId::of`, which returns the unique runtime tag of
/// the type `T`.  Nothing is assumed of the returned value; the buffer only
/// stores it and hands it to `type_id_eq` later.
#[verifier::external_body]
fn element_type_id<T: 'static>() -> core::any::TypeId {
    core::any::TypeId::of::<T>()
}

/// Relies on `TypeId`'s `PartialEq`, which compares the underlying type
/// identifiers: the call returns `true` exactly when the two tags are the
/// same value.
#[verifier::external_body]
fn type_id_eq(x: &core::any::TypeId, y: &core::any::TypeId) -> (r: bool)
    ensures
        r == (x == y),
{
    x == y
}

/// Relies on `TypeId`'s `Clone`, which — `TypeId` being `Copy` — returns the
/// tag itself.
pub assume_specification[ <core::any::TypeId as core::clone::Clone>::clone ](
    t: &core::any::TypeId,
) -> (r: core::any::TypeId)
    ensures
        r == *t,
;

/// The elements a circular traversal of `data` yields: starting at `current`
/// and stopping at `end`, wrapping past the physical end of `data`.  With
/// `current == end` the traversal is either already finished (`started`) or
/// covers one full lap.
pub open spec fn circ_seq<T>(data: Seq<T>, current: int, end: int, started: bool) -> Seq<T> {
    if started && current == end {
        Seq::empty()
    } else if current < end {
        data.subrange(current, end)
    } else {
        data.subrange(current, data.len() as int) + data.subrange(0, end)
    }
}

/// The prefix of a bulk write that actually lands in a buffer of capacity
/// `cap`: the whole input when it fits, else exactly the first `cap`
/// elements.
pub open spec fn bulk_written<T>(input: Seq<T>, cap: nat) -> Seq<T> {
    if input.len() <= cap {
        input
    } else {
        input.take(cap as int)
    }
}

/// The reader id is used by readers to tell the storage where the last read ended.
#[derive(Clone)]
pub struct ReaderId {
    t: core::any::TypeId,
    read_index: usize,
    written: usize,
    pos: Ghost<nat>,
}

impl ReaderId {
    /// The element-type tag this cursor was issued for.
    pub closed spec fn tag(self) -> core::any::TypeId {
        self.t
    }

    /// The slot in the backing store where the next read starts.
    pub closed spec fn read_pos(self) -> nat {
        self.read_index as nat
    }

    /// The write counter of the storage at the time of the last synchronization.
    pub closed spec fn counter_snapshot(self) -> nat {
        self.written as nat
    }

    /// The number of elements of the write history this reader has consumed.
    pub closed spec fn log_pos(self) -> nat {
        self.pos@
    }

    /// Create a new reader id
    pub fn new(t: core::any::TypeId, reader_index: usize, written: usize) -> (r: ReaderId)
        ensures
            r.tag() == t,
            r.read_pos() == reader_index,
            r.counter_snapshot() == written,
            r.log_pos() == written,
    {
        ReaderId { t, read_index: reader_index, written, pos: Ghost(written as nat) }
    }
}

/// Ring buffer, holding data of type `T`
pub struct RingBufferStorage<T> {
    data: Vec<T>,
    write_index: usize,
    max_size: usize,
    written: usize,
    reset_written: usize,
    t: core::any::TypeId,
    hist: Ghost<Seq<T>>,
}

impl<T: 'static> RingBufferStorage<T> {
    /// The fixed capacity chosen at construction.
    pub closed spec fn cap(self) -> nat {
        self.max_size as nat
    }

    /// The rebase threshold of the write counter.
    pub closed spec fn reset_threshold(self) -> nat {
        self.reset_written as nat
    }

    /// The current value of the (periodically rebased) write counter.
    pub closed spec fn counter(self) -> nat {
        self.written as nat
    }

    /// The slot where the next write lands.
    pub closed spec fn write_pos(self) -> nat {
        self.write_index as nat
    }

    /// The current contents of the backing store, by slot.
    pub closed spec fn stored(self) -> Seq<T> {
        self.data@
    }

    /// The element-type tag of this buffer.
    pub closed spec fn tag(self) -> core::any::TypeId {
        self.t
    }

    /// Every element ever written to this buffer, in write order.
    pub closed spec fn log(self) -> Seq<T> {
        self.hist@
    }

    /// The slot that write number `p` lands in.
    pub open spec fn slot_of(self, p: nat) -> nat {
        if self.cap() == 0 {
            0
        } else {
            p % self.cap()
        }
    }

    /// The write counter counts modulo this period: it runs from `0` up to
    /// `reset_threshold()` included, then is rebased to `0`.
    pub open spec fn period(self) -> nat {
        self.reset_threshold() + 1
    }

    /// How many slots of the backing store are in use.  The store grows
    /// lazily: one slot per write until the capacity is reached, and never
    /// beyond the capacity — with capacity `0` it stays empty and every write
    /// is dropped on arrival.
    pub open spec fn store_len(self) -> nat {
        if self.log().len() <= self.cap() {
            self.log().len()
        } else {
            self.cap()
        }
    }

    /// Structural invariant: the concrete fields follow the write history.
    /// Each of the `store_len()` most recent writes is still present, in the
    /// slot its write number maps to.
    pub open spec fn wf(self) -> bool {
        &&& self.reset_threshold() == self.cap() * 1000
        &&& self.write_pos() == self.slot_of(self.log().len())
        &&& self.counter() == self.log().len() % self.period()
        &&& self.stored().len() == self.store_len()
        &&& forall|k: int|
            self.log().len() - self.store_len() <= k < self.log().len() ==> self.stored()[self.slot_of(
                k as nat,
            ) as int] == #[trigger] self.log()[k]
    }

    /// Create a new ring buffer with the given max size.
    pub fn new(size: usize) -> (r: Self)
        requires
            size * 1000 <= usize::MAX,
        ensures
            r.wf(),
            r.cap() == size,
            r.log() == Seq::<T>::empty(),
    {
        let r = RingBufferStorage {
            data: Vec::with_capacity(size),
            write_index: 0,
            max_size: size,
            written: 0,
            reset_written: size * 1000,
            t: element_type_id::<T>(),
            hist: Ghost(Seq::empty()),
        };
        proof {
            assert(r.log().len() % r.period() == 0) by {
                vstd::arithmetic::div_mod::lemma_small_mod(0, r.period());
            }
        }
        r
    }

    /// Write a single data point into the ringbuffer.
    pub fn single_write(&mut self, data: T)
        requires
            old(self).wf(),
        ensures
            final(self).wf(),
            final(self).log() == old(self).log().push(data),
            final(self).cap() == old(self).cap(),
            final(self).reset_threshold() == old(self).reset_threshold(),
            final(self).tag() == old(self).tag(),
    {
        let ghost prev = *self;
        let ghost len = prev.log().len() as int;
        proof {
            if self.cap() > 0 {
                lemma_mod_division_less_than_divisor(len, self.cap() as int);
                if len < self.cap() {
                    lemma_small_mod(len as nat, self.cap());
                }
            }
            lemma_mod_division_less_than_divisor(len, self.period() as int);
        }
        let ghost wi = prev.write_pos() as int;
        let mut write_index = self.write_index;
        if self.max_size > 0 {
            if write_index == self.data.len() {
                self.data.push(data);
            } else {
                self.data[write_index] = data;
            }
            proof {
                assert(self.data@[wi] == data);
                assert(forall|i: int|
                    0 <= i < prev.stored().len() && i != wi ==> self.data@[i] == prev.stored()[i]);
            }
        }
        write_index += 1;
        if write_index >= self.max_size {
            write_index = 0;
        }
        self.write_index = write_index;
        if self.written >= self.reset_written {
            self.written = 0;
        } else {
            self.written += 1;
        }
        self.hist = Ghost(self.hist@.push(data));
        proof {
            lemma_counter_step(len, self.period() as int);
            if self.cap() > 0 {
                lemma_counter_step(len, self.cap() as int);
            }
            assert forall|k: int|
                self.log().len() - self.store_len() <= k < self.log().len() implies self.stored()[self.slot_of(
                k as nat,
            ) as int] == #[trigger] self.log()[k] by {
                assert(self.cap() > 0);
                if k < len {
                    assert(prev.log().len() - prev.store_len() <= k);
                    assert(prev.stored()[prev.slot_of(k as nat) as int] == prev.log()[k]);
                    lemma_mod_division_less_than_divisor(k, self.cap() as int);
                    if k < self.cap() {
                        lemma_small_mod(k as nat, self.cap());
                    }
                    lemma_distinct_slots(len, k, self.cap() as int);
                }
            }
        }
    }

    /// Writes the elements of `elements` to the buffer, in order, up to
    /// `max_size()` of them.
    ///
    /// # Errors
    ///
    /// * Returns `RBError::TooLargeWrite` if the input holds more elements
    ///   than `max_size()`.  In such a case, only the first `max_size`
    ///   elements get pushed; the rest are consumed and dropped.
    pub fn iter_write(&mut self, elements: Vec<T>) -> (r: Result<(), RBError>)
        requires
            old(self).wf(),
        ensures
            final(self).wf(),
            final(self).log() == old(self).log() + bulk_written(elements@, old(self).cap()),
            final(self).cap() == old(self).cap(),
            final(self).reset_threshold() == old(self).reset_threshold(),
            final(self).tag() == old(self).tag(),
            r == if elements@.len() <= old(self).cap() {
                Ok::<(), RBError>(())
            } else {
                Err::<(), RBError>(RBError::TooLargeWrite)
            },
    {
        let ghost input = elements@;
        let ghost start = self.log();
        let mut rest = elements;
        let mut count: usize = 0;
        let mut too_large = false;
        proof {
            assert(rest@ =~= input.skip(input.len() - rest@.len()));
            assert(self.log() =~= start + input.take(count as int));
        }
        while rest.len() > 0
            invariant
                self.wf(),
                self.cap() == old(self).cap(),
                self.reset_threshold() == old(self).reset_threshold(),
                self.tag() == old(self).tag(),
                rest@.len() <= input.len(),
                rest@ == input.skip(input.len() - rest@.len()),
                count == if input.len() - rest@.len() <= self.cap() {
                    input.len() - rest@.len()
                } else {
                    self.cap() as int
                },
                too_large == (input.len() - rest@.len() > self.cap()),
                self.log() == start + input.take(count as int),
            decreases rest@.len(),
        {
            let ghost n = input.len() - rest@.len();
            let x = rest.remove(0);
            proof {
                assert(x == input[n as int]);
                assert(rest@ =~= input.skip(input.len() - rest@.len()));
            }
            if count < self.max_size {
                self.single_write(x);
                count += 1;
                proof {
                    assert(self.log() =~= start + input.take(count as int));
                }
            } else {
                too_large = true;
            }
        }
        proof {
            if input.len() <= self.cap() {
                assert(input.take(input.len() as int) =~= input);
            }
        }
        if too_large {
            Err(RBError::TooLargeWrite)
        } else {
            Ok(())
        }
    }

    /// Removes all elements from a `Vec` and pushes them to the ringbuffer.
    ///
    /// # Errors
    ///
    /// * Returns `RBError::TooLargeWrite` if the `Vec` is bigger than `max_size()`.
    ///   In such a case, only the first `max_size` elements get pushed.
    ///   Note that the elements get still removed even if they're not all pushed.
    pub fn drain_vec_write(&mut self, data: &mut Vec<T>) -> (r: Result<(), RBError>)
        requires
            old(self).wf(),
        ensures
            final(self).wf(),
            final(self).log() == old(self).log() + bulk_written(old(data)@, old(self).cap()),
            final(data)@ == Seq::<T>::empty(),
            final(self).cap() == old(self).cap(),
            final(self).reset_threshold() == old(self).reset_threshold(),
            final(self).tag() == old(self).tag(),
            r == if old(data)@.len() <= old(self).cap() {
                Ok::<(), RBError>(())
            } else {
                Err::<(), RBError>(RBError::TooLargeWrite)
            },
    {
        let mut taken: Vec<T> = Vec::new();
        core::mem::swap(data, &mut taken);
        self.iter_write(taken)
    }

    /// Copies all elements of `data` and pushes them to the buffer.
    ///
    /// # Errors
    ///
    /// * Returns `RBError::TooLargeWrite` if the slice contains more
    ///   elements than `max_size()`.
    ///   In such a case, only the first `max_size` elements get pushed.
    pub fn slice_write(&mut self, data: &[T]) -> (r: Result<(), RBError>) where T: Copy
        requires
            old(self).wf(),
        ensures
            final(self).wf(),
            final(self).log() == old(self).log() + bulk_written(data@, old(self).cap()),
            final(self).cap() == old(self).cap(),
            final(self).reset_threshold() == old(self).reset_threshold(),
            final(self).tag() == old(self).tag(),
            r == if data@.len() <= old(self).cap() {
                Ok::<(), RBError>(())
            } else {
                Err::<(), RBError>(RBError::TooLargeWrite)
            },
    {
        let mut copied: Vec<T> = Vec::new();
        let mut i: usize = 0;
        while i < data.len()
            invariant
                i <= data@.len(),
                copied@ == data@.take(i as int),
            decreases data@.len() - i,
        {
            copied.push(data[i]);
            i += 1;
            proof {
                assert(copied@ =~= data@.take(i as int));
            }
        }
        proof {
            assert(data@.take(data@.len() as int) =~= data@);
        }
        self.iter_write(copied)
    }

    /// A cursor that genuinely belongs to this buffer and has not fallen
    /// further behind than the counter rebase threshold allows.  Every cursor
    /// this buffer hands out satisfies it, and each read re-establishes it;
    /// it is the documented caller obligation for pairing cursors with their
    /// own storage.
    pub open spec fn valid_reader(self, r: ReaderId) -> bool {
        &&& r.log_pos() <= self.log().len()
        &&& self.log().len() - r.log_pos() <= self.reset_threshold()
        &&& r.read_pos() == self.slot_of(r.log_pos())
        &&& r.counter_snapshot() == r.log_pos() % self.period()
    }

    /// The number of writes since the cursor's snapshot, as the read
    /// operation recovers it from the two counter values: when the counter
    /// was rebased in between, the distance is taken across the rebase
    /// threshold.
    pub open spec fn num_written_since(self, r: ReaderId) -> int {
        if self.counter() < r.counter_snapshot() {
            self.counter() + (self.reset_threshold() - r.counter_snapshot())
        } else {
            self.counter() - r.counter_snapshot()
        }
    }

    /// A read through `r` reports that the reader was lapped.
    pub open spec fn lapped(self, r: ReaderId) -> bool {
        self.num_written_since(r) > self.cap()
    }

    /// Create a new reader id for this ringbuffer.
    pub fn new_reader_id(&self) -> (r: ReaderId)
        requires
            self.wf(),
        ensures
            r.tag() == self.tag(),
            r.read_pos() == self.write_pos(),
            r.counter_snapshot() == self.counter(),
            r.log_pos() == self.log().len(),
            self.valid_reader(r),
    {
        ReaderId {
            t: self.t,
            read_index: self.write_index,
            written: self.written,
            pos: Ghost(self.hist@.len()),
        }
    }

    /// The contents a normal (non-lapped) read through `r` delivers: the
    /// circular range from the reader's slot up to the write slot, explicitly
    /// empty when nothing was written since the snapshot.
    pub open spec fn normal_contents(self, r: ReaderId) -> Seq<T> {
        circ_seq(
            self.stored(),
            r.read_pos() as int,
            self.write_pos() as int,
            self.num_written_since(r) == 0,
        )
    }

    /// The recovered distance is exact while the counter was not rebased
    /// since the snapshot, and one short when it was; a caught-up reader
    /// always recovers zero.
    pub(crate) proof fn lemma_recovered_distance(self, r: ReaderId)
        requires
            self.wf(),
            self.valid_reader(r),
        ensures
            self.log().len() - r.log_pos() - 1 <= self.num_written_since(r) <= self.log().len()
                - r.log_pos(),
            self.counter() >= r.counter_snapshot() ==> self.num_written_since(r) == self.log().len()
                - r.log_pos(),
    {
        let p = self.period() as int;
        let pos = r.log_pos() as int;
        let len = self.log().len() as int;
        let k = len - pos;
        lemma_fundamental_div_mod(pos, p);
        lemma_mod_division_less_than_divisor(pos, p);
        lemma_mod_division_less_than_divisor(len, p);
        let q = pos / p;
        let sp = pos % p;
        if sp + k < p {
            lemma_fundamental_div_mod_converse_mod(len, p, q, sp + k);
        } else {
            assert(len == (q + 1) * p + (sp + k - p)) by (nonlinear_arith)
                requires
                    pos == p * q + sp,
                    len == pos + k,
            ;
            lemma_fundamental_div_mod_converse_mod(len, p, q + 1, sp + k - p);
        }
    }

    /// A full circular lap of a saturated store, starting at the write slot,
    /// is exactly the last `cap()` entries of the write history.
    pub(crate) proof fn lemma_full_lap(self)
        requires
            self.wf(),
            self.log().len() > self.cap(),
            self.cap() > 0,
        ensures
            circ_seq(self.stored(), self.write_pos() as int, self.write_pos() as int, false)
                =~= self.log().subrange(
                self.log().len() - self.cap(),
                self.log().len() as int,
            ),
    {
        let c = self.cap() as int;
        let len = self.log().len() as int;
        let wi = self.write_pos() as int;
        lemma_fundamental_div_mod(len, c);
        lemma_mod_division_less_than_divisor(len, c);
        let q = len / c;
        let full = circ_seq(self.stored(), wi, wi, false);
        let tail = self.log().subrange(len - c, len);
        assert(full.len() == c);
        assert forall|j: int| 0 <= j < c implies full[j] == tail[j] by {
            assert(tail[j] == self.log()[len - c + j]);
            if wi + j < c {
                assert(len - c + j == (q - 1) * c + (wi + j)) by (nonlinear_arith)
                    requires
                        len == c * q + wi,
                ;
                lemma_fundamental_div_mod_converse_mod(len - c + j, c, q - 1, wi + j);
                assert(self.slot_of((len - c + j) as nat) == wi + j);
                assert(full[j] == self.stored()[wi + j]);
            } else {
                assert(len - c + j == q * c + (wi + j - c)) by (nonlinear_arith)
                    requires
                        len == c * q + wi,
                ;
                lemma_fundamental_div_mod_converse_mod(len - c + j, c, q, wi + j - c);
                assert(self.slot_of((len - c + j) as nat) == wi + j - c);
                assert(full[j] == self.stored()[wi + j - c]);
            }
            assert(self.stored()[self.slot_of((len - c + j) as nat) as int] == self.log()[len - c
                + j]);
        }
        assert(full =~= tail);
    }

    /// Read data from the ringbuffer, starting where the last read ended, and up to where the
    /// last data was written.  The cursor is advanced to the current write position either way;
    /// a reader that fell more than `cap()` writes behind is handed the full surviving buffer
    /// together with the count of elements it lost.
    pub fn read<'a>(&'a self, reader_id: &mut ReaderId) -> (r: Result<ReadData<'a, T>, RBError>)
        requires
            self.wf(),
            old(reader_id).tag() == self.tag() ==> self.valid_reader(*old(reader_id)),
        ensures
            old(reader_id).tag() != self.tag() ==> (r matches Err(e) && e
                == RBError::InvalidReader && *final(reader_id) == *old(reader_id)),
            old(reader_id).tag() == self.tag() ==> ({
                let before = *old(reader_id);
                let after = *final(reader_id);
                &&& after.tag() == before.tag()
                &&& after.read_pos() == self.write_pos()
                &&& after.counter_snapshot() == self.counter()
                &&& after.log_pos() == self.log().len()
                &&& self.valid_reader(after)
                &&& (self.lapped(before) ==> (r matches Ok(d) && d matches ReadData::Overflow(
                    v,
                    lost,
                ) && v.wf() && v.backing() == *self && lost == self.num_written_since(before)
                    - self.cap() && v.contents() == self.log().subrange(
                    self.log().len() - self.cap(),
                    self.log().len() as int,
                )))
                &&& (!self.lapped(before) ==> (r matches Ok(d) && d matches ReadData::Data(v)
                    && v.wf() && v.backing() == *self && v.contents() == self.normal_contents(
                    before,
                )))
            }),
    {
        if !type_id_eq(&reader_id.t, &self.t) {
            return Err(RBError::InvalidReader);
        }
        let ghost before = *old(reader_id);
        proof {
            lemma_mod_division_less_than_divisor(self.log().len() as int, self.period() as int);
            lemma_mod_division_less_than_divisor(before.log_pos() as int, self.period() as int);
            self.lemma_recovered_distance(before);
            if self.max_size > 0 {
                lemma_mod_division_less_than_divisor(
                    before.log_pos() as int,
                    self.cap() as int,
                );
                lemma_mod_division_less_than_divisor(self.log().len() as int, self.cap() as int);
                if before.log_pos() < self.cap() {
                    lemma_small_mod(before.log_pos(), self.cap());
                }
                if self.log().len() < self.cap() {
                    lemma_small_mod(self.log().len(), self.cap());
                }
            }
        }
        let num_written = if self.written < reader_id.written {
            self.written + (self.reset_written - reader_id.written)
        } else {
            self.written - reader_id.written
        };
        let read_index = reader_id.read_index;
        reader_id.read_index = self.write_index;
        reader_id.written = self.written;
        reader_id.pos = Ghost(self.hist@.len());
        if num_written > self.max_size {
            proof {
                self.lemma_full_lap();
            }
            Ok(
                ReadData::Overflow(
                    StorageIterator {
                        storage: &self,
                        current: self.write_index,
                        end: self.write_index,
                        started: false,
                    },
                    num_written - self.max_size,
                ),
            )
        } else {
            Ok(
                ReadData::Data(
                    StorageIterator {
                        storage: &self,
                        current: read_index,
                        end: self.write_index,
                        // handle corner case no data to read
                        started: num_written == 0,
                    },
                ),
            )
        }
    }

    /// The number of elements this bufer can store.
    pub fn max_size(&self) -> (r: usize)
        ensures
            r == self.cap(),
    {
        self.max_size
    }
}

/// Wrapper for read data. Needed because of overflow situations.
pub enum ReadData<'a, T> {
    /// Normal read scenario, only contains a lazy view over the new data.
    Data(StorageIterator<'a, T>),
    /// Overflow scenario, contains a lazy view over the recovered data, and
    /// an indicator of how much data was lost.
    Overflow(StorageIterator<'a, T>, usize),
}

/// Lazy view over a slice of data in `RingBufferStorage`.
pub struct StorageIterator<'a, T> {
    storage: &'a RingBufferStorage<T>,
    current: usize,
    end: usize,
    // needed when we should read the whole buffer, because then current == end for the first value
    // needs special handling for empty view, needs to be forced to true for that corner case
    started: bool,
}

impl<'a, T: 'static> StorageIterator<'a, T> {
    /// The buffer this view reads from.
    pub closed spec fn backing(self) -> RingBufferStorage<T> {
        *self.storage
    }

    /// The slot the next element is read from.
    pub closed spec fn cur(self) -> int {
        self.current as int
    }

    /// The slot at which the traversal stops.
    pub closed spec fn stop(self) -> int {
        self.end as int
    }

    /// Whether at least one element was already yielded (or the view was
    /// constructed empty).
    pub closed spec fn has_started(self) -> bool {
        self.started
    }

    /// The elements this view has yet to yield, in traversal order.
    pub open spec fn contents(self) -> Seq<T> {
        circ_seq(self.backing().stored(), self.cur(), self.stop(), self.has_started())
    }

    /// A view that can be traversed safely: both ends lie within the backing
    /// store, and the start slot is strictly inside it unless the view is
    /// already finished.
    pub open spec fn wf(self) -> bool {
        let l = self.backing().stored().len() as int;
        &&& self.cur() <= l
        &&& self.stop() <= l
        &&& (!(self.has_started() && self.cur() == self.stop()) ==> self.cur() < l)
    }

    /// Yield the element at the current slot and advance, wrapping past the
    /// physical end of the store; `None` once the stop slot is reached again.
    pub fn next(&mut self) -> (r: Option<&'a T>)
        requires
            old(self).wf(),
        ensures
            final(self).wf(),
            final(self).backing() == old(self).backing(),
            old(self).contents().len() == 0 ==> r is None && *final(self) == *old(self),
            old(self).contents().len() > 0 ==> (r matches Some(v) && *v == old(self).contents()[0]
                && final(self).contents() == old(self).contents().drop_first()),
    {
        if self.started && self.current == self.end {
            None
        } else {
            let ghost prev = *self;
            proof {
                assert(prev.cur() < prev.backing().stored().len());
            }
            self.started = true;
            let phys = self.storage.data.len();
            let item = &self.storage.data[self.current];
            self.current += 1;
            if self.current == phys && self.end != phys {
                self.current = 0;
            }
            proof {
                let d = prev.backing().stored();
                let l = d.len() as int;
                assert(prev.contents().len() > 0);
                assert(prev.contents()[0] == d[prev.cur()]);
                assert(self.contents() =~= prev.contents().drop_first());
            }
            Some(item)
        }
    }

    /// Copy the elements this view has yet to yield into a vector, in
    /// traversal order, consuming the view.
    pub fn cloned(self) -> (r: Vec<T>) where T: Copy
        requires
            self.wf(),
        ensures
            r@ == self.contents(),
    {
        let ghost all = self.contents();
        let mut it = self;
        let mut out: Vec<T> = Vec::new();
        proof {
            assert(out@ + it.contents() =~= all);
        }
        loop
            invariant_except_break
                it.wf(),
                out@ + it.contents() == all,
            ensures
                out@ == all,
            decreases it.contents().len(),
        {
            match it.next() {
                Some(v) => {
                    out.push(*v);
                    proof {
                        assert(out@ + it.contents() =~= all);
                    }
                },
                None => {
                    proof {
                        assert(out@ + it.contents() =~= out@);
                    }
                    break ;
                },
            }
        }
        out
    }
}

} // verus!
