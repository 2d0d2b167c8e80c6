use vstd::prelude::*;
use std::collections::VecDeque;

verus! {

/// Returned by a write on a closed channel.
#[derive(Debug)]
pub struct SendError;

/// Returned by a read once a closed channel has been drained.
#[derive(Debug)]
pub struct RecvError;

/// What travels through the channel: a value, or the marker that ends the
/// stream.
pub enum Item<T> {
    Value(T),
    Stop,
}

/// The state of a bounded FIFO channel for several producers and
/// consumers: the queued items, whether the channel is closed, and the
/// number of items that makes it full.
///
/// Writers block while the channel is full and readers while it is empty
/// and open; the methods here are the steps taken once a caller may go on.
pub struct MyChannel<T> {
    buffer: VecDeque<Item<T>>,
    closed: bool,
    n: usize,
}

/// The queue left and the answer of a read that does not wait on a queue
/// `q` of a channel that is `closed` or not: an empty queue answers
/// `RecvError`; otherwise the oldest item leaves the queue and is answered,
/// except the `Stop` of a closed channel, which answers `RecvError`.
pub open spec fn read_step<T>(q: Seq<Item<T>>, closed: bool) -> (Seq<Item<T>>, Result<Item<T>, RecvError>) {
    if q.len() == 0 {
        (q, Err(RecvError))
    } else if closed && q[0] is Stop {
        (q.drop_first(), Err(RecvError))
    } else {
        (q.drop_first(), Ok(q[0]))
    }
}

impl<T> MyChannel<T> {
    /// While open, the channel holds at most `n` items.
    #[verifier::type_invariant]
    spec fn wf(self) -> bool {
        !self.closed ==> self.buffer@.len() <= self.n
    }

    /// The queued items, oldest first.
    pub closed spec fn queue(&self) -> Seq<Item<T>> {
        self.buffer@
    }

    /// Whether the channel has been closed.
    pub closed spec fn spec_closed(&self) -> bool {
        self.closed
    }

    /// The number of queued items at which writers have to wait.
    pub closed spec fn bound(&self) -> nat {
        self.n as nat
    }

    /// An open, empty channel that holds up to `size` items.
    pub fn new(size: usize) -> (c: Self)
        ensures
            c.queue() == Seq::<Item<T>>::empty(),
            !c.spec_closed(),
            c.bound() == size,
    {
        MyChannel { buffer: VecDeque::with_capacity(size), closed: false, n: size }
    }

    /// Whether the channel has been closed.
    pub fn is_closed(&self) -> (b: bool)
        ensures
            b == self.spec_closed(),
    {
        self.closed
    }

    /// Whether the channel holds exactly as many items as its bound, so
    /// that a writer has to wait.
    pub fn is_full(&self) -> (b: bool)
        ensures
            b == (self.queue().len() == self.bound()),
    {
        self.buffer.len() == self.n
    }

    /// Whether a reader has to wait: the channel is empty and still open.
    pub fn must_wait_to_read(&self) -> (b: bool)
        ensures
            b == (self.queue().len() == 0 && !self.spec_closed()),
    {
        self.buffer.len() == 0 && !self.closed
    }

    /// Whether a writer has to wait: the channel is full and still open.
    pub fn must_wait_to_write(&self) -> (b: bool)
        ensures
            b == (self.queue().len() == self.bound() && !self.spec_closed()),
    {
        self.buffer.len() == self.n && !self.closed
    }

    /// A write that does not have to wait: it fails on a closed channel,
    /// leaving the queue as it was, and otherwise queues `item` after the
    /// others. An open channel never holds more than its bound.
    pub fn write(&mut self, item: Item<T>) -> (r: Result<(), SendError>)
        requires
            !(old(self).queue().len() == old(self).bound() && !old(self).spec_closed()),
        ensures
            r is Err <==> old(self).spec_closed(),
            r is Err ==> final(self).queue() == old(self).queue(),
            r is Ok ==> final(self).queue() == old(self).queue().push(item),
            r is Ok ==> final(self).queue().len() <= final(self).bound(),
            final(self).spec_closed() == old(self).spec_closed(),
            final(self).bound() == old(self).bound(),
    {
        proof {
            use_type_invariant(&*self);
        }
        if self.closed {
            return Err(SendError);
        }
        let mut buffer: VecDeque<Item<T>> = VecDeque::new();
        core::mem::swap(&mut self.buffer, &mut buffer);
        buffer.push_back(item);
        self.buffer = buffer;
        Ok(())
    }

    /// A read that does not have to wait: it takes the oldest item. It
    /// fails when the channel is closed and either empty or at the `Stop`
    /// that closing queued.
    pub fn read(&mut self) -> (r: Result<Item<T>, RecvError>)
        requires
            !(old(self).queue().len() == 0 && !old(self).spec_closed()),
        ensures
            final(self).spec_closed() == old(self).spec_closed(),
            final(self).bound() == old(self).bound(),
            (final(self).queue(), r) == read_step(old(self).queue(), old(self).spec_closed()),
    {
        proof {
            use_type_invariant(&*self);
        }
        let mut buffer: VecDeque<Item<T>> = VecDeque::new();
        core::mem::swap(&mut self.buffer, &mut buffer);
        let front = buffer.pop_front();
        self.buffer = buffer;
        match front {
            None => Err(RecvError),
            Some(item) => {
                if self.closed {
                    if let Item::Stop = item {
                        return Err(RecvError);
                    }
                }
                Ok(item)
            },
        }
    }

    /// Closes the channel and queues a `Stop` marker after the other items.
    pub fn close(&mut self)
        ensures
            final(self).spec_closed(),
            final(self).queue() == old(self).queue().push(Item::Stop),
            final(self).bound() == old(self).bound(),
    {
        let mut buffer: VecDeque<Item<T>> = VecDeque::new();
        core::mem::swap(&mut self.buffer, &mut buffer);
        buffer.push_back(Item::Stop);
        self.closed = true;
        self.buffer = buffer;
    }
}

/// Draining a closed channel: when the values `q` were queued before the
/// channel was closed, reads hand them out in order, then the `Stop` that
/// closing queued answers `RecvError`, and so does every read after it.
pub proof fn law_drain_after_close<T>(q: Seq<Item<T>>, i: int)
    requires
        forall|k: int| 0 <= k < q.len() ==> (#[trigger] q[k]) is Value,
        0 <= i <= q.len(),
    ensures
        i < q.len() ==> read_step(q.skip(i).push(Item::Stop), true) == (
            q.skip(i + 1).push(Item::Stop),
            Ok::<Item<T>, RecvError>(q[i]),
        ),
        i == q.len() ==> read_step(q.skip(i).push(Item::Stop), true) == (
            Seq::<Item<T>>::empty(),
            Err::<Item<T>, RecvError>(RecvError),
        ),
        read_step(Seq::<Item<T>>::empty(), true) == (Seq::<Item<T>>::empty(), Err::<Item<T>, RecvError>(RecvError)),
{
    let s = q.skip(i).push(Item::Stop);
    if i < q.len() {
        assert(s[0] == q[i]);
        assert(s.drop_first() =~= q.skip(i + 1).push(Item::Stop));
    } else {
        assert(s =~= seq![Item::<T>::Stop]);
        assert(s.drop_first() =~= Seq::<Item<T>>::empty());
    }
}

} // verus!
