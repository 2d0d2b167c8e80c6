use vstd::prelude::*;

verus! {

/// A fixed-capacity FIFO ring buffer.
///
/// The slots live in `array`; `head` is the slot of the oldest item, `tail`
/// the slot the next write fills, and `size` the number of stored items.
#[derive(Debug)]
pub struct CircularBuffer<T> {
    pub capacity: usize,
    pub array: Box<[Option<T>]>,
    pub head: usize,
    pub tail: usize,
    pub size: usize,
}

/// Returned by [`CircularBuffer::write`] when every slot is taken.
#[derive(Debug, PartialEq, Eq)]
pub struct BufferFullError;

/// The slot index reached by walking `offset` places forward from `start`
/// on a ring of `capacity` slots (both below `capacity`).
pub open spec fn ring_slot(start: int, offset: int, capacity: int) -> int {
    if start + offset < capacity {
        start + offset
    } else {
        start + offset - capacity
    }
}

/// `Vec::into_boxed_slice` from std: the boxed slice holds the same items in
/// the same order.
#[verifier::external_body]
fn boxed_slots<T>(v: Vec<Option<T>>) -> (b: Box<[Option<T>]>)
    ensures
        b@ == v@,
{
    v.into_boxed_slice()
}

impl<T> View for CircularBuffer<T> {
    type V = Seq<T>;

    /// The stored items, oldest first.
    open spec fn view(&self) -> Seq<T> {
        Seq::new(self.size as nat, |i: int| self.array@[self.slot(i)]->0)
    }
}

impl<T> CircularBuffer<T> {
    /// The slot holding the `i`-th oldest item.
    pub open spec fn slot(&self, i: int) -> int {
        ring_slot(self.head as int, i, self.capacity as int)
    }

    /// The buffer's invariant: the slot array has `capacity` slots, the
    /// cursors point into it, `tail` is `size` places after `head`, and
    /// every occupied slot holds an item.
    pub open spec fn wf(&self) -> bool {
        &&& self.array@.len() == self.capacity
        &&& self.size <= self.capacity
        &&& self.capacity == 0 ==> self.head == 0 && self.tail == 0
        &&& self.capacity > 0 ==> {
            &&& self.head < self.capacity
            &&& self.tail == ring_slot(self.head as int, self.size as int, self.capacity as int)
        }
        &&& forall|i: int| 0 <= i < self.size ==> (#[trigger] self.array@[self.slot(i)]) is Some
    }

    /// `after` is the buffer `before` once `write(item)` returned `r`.
    pub open spec fn write_step(before: Self, item: T, after: Self, r: Result<(), BufferFullError>) -> bool {
        if before.size == before.capacity {
            &&& r is Err
            &&& after == before
        } else {
            &&& r is Ok
            &&& after.capacity == before.capacity
            &&& after.array@ == before.array@.update(before.tail as int, Some(item))
            &&& after.head == before.head
            &&& after.tail == (before.tail + 1) % (before.capacity as int)
            &&& after.size == before.size + 1
        }
    }

    /// `after` is the buffer `before` once `read()` returned `r`.
    pub open spec fn read_step(before: Self, after: Self, r: Option<T>) -> bool {
        if before.size == 0 {
            &&& r is None
            &&& after == before
        } else {
            &&& r == Some(before.array@[before.head as int]->0)
            &&& after.capacity == before.capacity
            &&& after.array@ == before.array@.update(before.head as int, None)
            &&& after.head == (before.head + 1) % (before.capacity as int)
            &&& after.tail == before.tail
            &&& after.size == before.size - 1
        }
    }

    /// Creates an empty buffer with `capacity` empty slots.
    pub fn new(capacity: usize) -> (b: Self)
        ensures
            b.wf(),
            b.capacity == capacity,
            b.head == 0,
            b.tail == 0,
            b.size == 0,
            b.array@ == Seq::new(capacity as nat, |i: int| None::<T>),
            b@ == Seq::<T>::empty(),
    {
        let mut vec: Vec<Option<T>> = Vec::with_capacity(capacity);
        for i in 0..capacity
            invariant
                vec@ == Seq::new(i as nat, |j: int| None::<T>),
        {
            vec.push(None);
        }
        let b = CircularBuffer { capacity: capacity, array: boxed_slots(vec), head: 0, tail: 0, size: 0 };
        assert(b@ =~= Seq::<T>::empty());
        b
    }

    /// Appends `item` after the newest item, or fails with
    /// [`BufferFullError`] when all `capacity` slots are taken.
    pub fn write(&mut self, item: T) -> (r: Result<(), BufferFullError>)
        requires
            old(self).wf(),
        ensures
            final(self).wf(),
            Self::write_step(*old(self), item, *final(self), r),
            r is Ok <==> old(self).size < old(self).capacity,
            r is Ok ==> final(self)@ == old(self)@.push(item),
            r is Err ==> final(self)@ == old(self)@,
    {
        if self.capacity == self.size {
            return Err(BufferFullError);
        }
        let ghost before = *self;
        self.array[self.tail] = Some(item);
        proof {
            lemma_mod_step(before.tail + 1, before.capacity as int);
        }
        self.tail = (self.tail + 1) % self.capacity;
        self.size += 1;
        proof {
            lemma_write_step(before, item, *self);
        }
        Ok(())
    }

    /// Removes and returns the oldest item, or `None` when the buffer is empty.
    pub fn read(&mut self) -> (r: Option<T>)
        requires
            old(self).wf(),
        ensures
            final(self).wf(),
            Self::read_step(*old(self), *final(self), r),
            old(self)@.len() == 0 ==> r is None && final(self)@ == old(self)@,
            old(self)@.len() > 0 ==> r == Some(old(self)@[0]) && final(self)@ == old(self)@.drop_first(),
    {
        if self.size == 0 {
            return None;
        }
        let ghost before = *self;
        let mut value: Option<T> = None;
        core::mem::swap(&mut self.array[self.head], &mut value);
        proof {
            lemma_mod_step(before.head + 1, before.capacity as int);
        }
        self.head = (self.head + 1) % self.capacity;
        self.size -= 1;
        proof {
            assert(before.slot(0) == before.head);
            assert(before.array@[before.slot(0)] is Some);
            lemma_read_step(before, *self, value);
        }
        value
    }

    /// Empties the buffer: both cursors return to slot 0, the first `size`
    /// slots are set empty, and the other slots are left as they were.
    pub fn clear(&mut self)
        requires
            old(self).wf(),
        ensures
            final(self).wf(),
            final(self).capacity == old(self).capacity,
            final(self).head == 0,
            final(self).tail == 0,
            final(self).size == 0,
            final(self).array@ == Seq::new(
                old(self).array@.len(),
                |i: int| if i < old(self).size { None } else { old(self).array@[i] },
            ),
            final(self)@ == Seq::<T>::empty(),
    {
        let ghost before = *self;
        self.head = 0;
        self.tail = 0;
        let n = self.size;
        for i in 0..n
            invariant
                n == before.size,
                self.head == 0,
                self.tail == 0,
                self.size == before.size,
                self.capacity == before.capacity,
                self.size <= self.array@.len(),
                self.array@ == Seq::new(
                    before.array@.len(),
                    |j: int| if j < i { None } else { before.array@[j] },
                ),
        {
            self.array[i] = None;
            assert(self.array@ =~= Seq::new(
                before.array@.len(),
                |j: int| if j < i + 1 { None } else { before.array@[j] },
            ));
        }
        self.size = 0;
        assert(self@ =~= Seq::<T>::empty());
    }

    /// The number of stored items.
    pub fn size(&self) -> (n: usize)
        ensures
            n == self.size,
            n == self@.len(),
    {
        self.size
    }

    /// Puts `item` into the slot at `head`, replacing the oldest item when
    /// there is one; the cursors and the size do not move.
    pub fn overwrite(&mut self, item: T)
        requires
            old(self).wf(),
            old(self).capacity > 0,
        ensures
            final(self).wf(),
            final(self).capacity == old(self).capacity,
            final(self).head == old(self).head,
            final(self).tail == old(self).tail,
            final(self).size == old(self).size,
            final(self).array@ == old(self).array@.update(old(self).head as int, Some(item)),
            old(self)@.len() > 0 ==> final(self)@ == old(self)@.update(0, item),
            old(self)@.len() == 0 ==> final(self)@ == old(self)@,
    {
        let ghost before = *self;
        self.array[self.head] = Some(item);
        proof {
            assert(before.slot(0) == before.head);
            assert forall|i: int| 0 <= i < self.size implies (#[trigger] self.array@[self.slot(i)]) is Some by {
                assert(self.slot(i) == before.slot(i));
                assert(before.array@[before.slot(i)] is Some);
                if i > 0 {
                    lemma_ring_slot_injective(before.head as int, 0, i, before.capacity as int);
                }
            }
            if before.size > 0 {
                assert(self@ =~= before@.update(0, item)) by {
                    assert forall|i: int| 0 < i < self.size implies self@[i] == before@[i] by {
                        lemma_ring_slot_injective(before.head as int, 0, i, before.capacity as int);
                    }
                }
            } else {
                assert(self@ =~= before@);
            }
        }
    }
}

/// A successful write keeps the invariant and appends the item to the view.
pub proof fn lemma_write_step<T>(before: CircularBuffer<T>, item: T, after: CircularBuffer<T>)
    requires
        before.wf(),
        before.size < before.capacity,
        CircularBuffer::write_step(before, item, after, Ok(())),
    ensures
        after.wf(),
        after@ == before@.push(item),
{
    lemma_mod_step(before.tail + 1, before.capacity as int);
    assert forall|i: int| 0 <= i < after.size implies (#[trigger] after.array@[after.slot(i)]) is Some by {
        assert(after.slot(i) == before.slot(i));
        if i < before.size {
            lemma_ring_slot_injective(before.head as int, i, before.size as int, before.capacity as int);
            assert(before.array@[before.slot(i)] is Some);
        }
    }
    assert(after@ =~= before@.push(item)) by {
        assert forall|i: int| 0 <= i < before.size implies after@[i] == before@[i] by {
            lemma_ring_slot_injective(before.head as int, i, before.size as int, before.capacity as int);
        }
    }
}

/// A read from a non-empty buffer keeps the invariant, returns the oldest
/// item and drops it from the view.
pub proof fn lemma_read_step<T>(before: CircularBuffer<T>, after: CircularBuffer<T>, r: Option<T>)
    requires
        before.wf(),
        before.size > 0,
        CircularBuffer::read_step(before, after, r),
    ensures
        after.wf(),
        r == Some(before@[0]),
        after@ == before@.drop_first(),
{
    lemma_mod_step(before.head + 1, before.capacity as int);
    assert(before.slot(0) == before.head);
    assert forall|i: int| 0 <= i < after.size implies after.slot(i) == before.slot(i + 1) by {}
    assert forall|i: int| 0 <= i < after.size implies (#[trigger] after.array@[after.slot(i)]) is Some by {
        lemma_ring_slot_injective(before.head as int, 0, i + 1, before.capacity as int);
        assert(before.array@[before.slot(i + 1)] is Some);
    }
    assert(after@ =~= before@.drop_first()) by {
        assert forall|i: int| 0 <= i < after.size implies after@[i] == before@[i + 1] by {
            lemma_ring_slot_injective(before.head as int, 0, i + 1, before.capacity as int);
        }
    }
}

/// Queue order: right after a successful write, a read returns the item
/// that was oldest before the write, or the written item itself when the
/// buffer was empty, and leaves the other items in order.
pub proof fn law_write_then_read<T>(
    b0: CircularBuffer<T>,
    item: T,
    b1: CircularBuffer<T>,
    b2: CircularBuffer<T>,
    r: Option<T>,
)
    requires
        b0.wf(),
        CircularBuffer::write_step(b0, item, b1, Ok(())),
        CircularBuffer::read_step(b1, b2, r),
    ensures
        r == Some(if b0@.len() == 0 { item } else { b0@[0] }),
        b2@ == b0@.push(item).drop_first(),
        b2.wf(),
{
    lemma_write_step(b0, item, b1);
    lemma_read_step(b1, b2, r);
}

/// A full buffer refuses a write and stays as it was; a buffer with a free
/// slot always accepts one.
pub proof fn law_write_fails_only_when_full<T>(
    b0: CircularBuffer<T>,
    item: T,
    b1: CircularBuffer<T>,
    r: Result<(), BufferFullError>,
)
    requires
        b0.wf(),
        CircularBuffer::write_step(b0, item, b1, r),
    ensures
        r is Err <==> b0@.len() == b0.capacity,
        r is Err ==> b1 == b0,
{
}

/// Two distinct offsets below `capacity` reach distinct slots inside the ring.
proof fn lemma_ring_slot_injective(start: int, i: int, j: int, capacity: int)
    requires
        0 <= start < capacity,
        0 <= i < capacity,
        0 <= j < capacity,
        i != j,
    ensures
        ring_slot(start, i, capacity) != ring_slot(start, j, capacity),
        0 <= ring_slot(start, i, capacity) < capacity,
        0 <= ring_slot(start, j, capacity) < capacity,
{
}

/// Stepping one place past slot `x - 1` stays at `x`, or wraps to 0 at the end.
proof fn lemma_mod_step(x: int, capacity: int)
    requires
        0 < x <= capacity,
    ensures
        x % capacity == if x == capacity { 0 } else { x },
{
    if x == capacity {
        vstd::arithmetic::div_mod::lemma_mod_self_0(capacity);
    } else {
        vstd::arithmetic::div_mod::lemma_small_mod(x as nat, capacity as nat);
    }
}

} // verus!
