use vstd::prelude::*;
use std::sync::mpsc::{channel, Receiver, Sender};
use std::sync::{Arc, Mutex, MutexGuard};

use crate::lru_cache::share;
use crate::subscription::send_value;

verus! {

/// Where a queued message of a forgettable channel stands: still waiting
/// for the receiver, forgotten by its sender, or handed to the receiver.
#[derive(Clone, Copy, Debug, PartialEq, Eq, Structural)]
pub enum MessageState {
    Pending,
    Forgotten,
    Received,
}

/// What the receiver does with a message it takes from the queue.
#[derive(Debug, PartialEq, Eq, Structural)]
pub enum Delivery {
    /// Hand the value to the caller.
    Deliver,
    /// Drop it silently and take the next message.
    Skip,
    /// Stop receiving.
    Stop,
}

/// The state after a `forget` and what it returns: a pending message becomes
/// forgotten; `forget` answers `true` unless the receiver already has it.
pub open spec fn forget_step(s: MessageState) -> (MessageState, bool) {
    match s {
        MessageState::Pending => (MessageState::Forgotten, true),
        MessageState::Forgotten => (MessageState::Forgotten, true),
        MessageState::Received => (MessageState::Received, false),
    }
}

/// The state after the receiver takes the message and what it does: a
/// pending message is delivered and marked received, a forgotten one is
/// skipped, and a received one stops the receiver.
pub open spec fn receive_step(s: MessageState) -> (MessageState, Delivery) {
    match s {
        MessageState::Pending => (MessageState::Received, Delivery::Deliver),
        MessageState::Forgotten => (MessageState::Forgotten, Delivery::Skip),
        MessageState::Received => (MessageState::Received, Delivery::Stop),
    }
}

impl MessageState {
    /// The sender gives up on the message. Returns `true` when the message
    /// was still pending or already forgotten, so the receiver will not see
    /// it, and `false` when the receiver already took it.
    pub fn forget(&mut self) -> (r: bool)
        ensures
            (*final(self), r) == forget_step(*old(self)),
    {
        match self {
            MessageState::Pending => {
                *self = MessageState::Forgotten;
                true
            },
            MessageState::Forgotten => true,
            MessageState::Received => false,
        }
    }

    /// The receiver takes the message out of the queue and decides what to
    /// do with it.
    pub fn receive(&mut self) -> (d: Delivery)
        ensures
            (*final(self), d) == receive_step(*old(self)),
    {
        match self {
            MessageState::Pending => {
                *self = MessageState::Received;
                Delivery::Deliver
            },
            MessageState::Forgotten => Delivery::Skip,
            MessageState::Received => Delivery::Stop,
        }
    }
}

/// A message is either processed or forgotten, never both: whichever of
/// `forget` and the receiver acts first on a pending message wins, and the
/// other one learns it.
pub proof fn law_processed_or_forgotten(s: MessageState)
    requires
        s == MessageState::Pending,
    ensures
        // the receiver first: it delivers, and a later forget answers false
        receive_step(s).1 == Delivery::Deliver,
        forget_step(receive_step(s).0).1 == false,
        // the sender first: forget answers true, and the receiver skips it
        forget_step(s).1 == true,
        receive_step(forget_step(s).0).1 == Delivery::Skip,
{
}

/// Forgetting is idempotent, and a message is delivered at most once:
/// once it is no longer pending, neither side can change its state, and the
/// receiver never delivers it again.
pub proof fn law_settled_states(s: MessageState)
    requires
        s != MessageState::Pending,
    ensures
        forget_step(s).0 == s,
        receive_step(s).0 == s,
        receive_step(s).1 != Delivery::Deliver,
        forget_step(forget_step(s).0) == forget_step(s),
{
}

#[verifier::external_type_specification]
#[verifier::external_body]
#[verifier::reject_recursive_types(T)]
pub struct ExMutex<T: ?Sized>(Mutex<T>);

#[verifier::external_type_specification]
#[verifier::external_body]
#[verifier::reject_recursive_types(T)]
pub struct ExMutexGuard<'a, T: ?Sized + 'a>(MutexGuard<'a, T>);

/// `Mutex::new` from std: a lock around `s`. What a lock holds changes
/// behind shared references, so nothing is stated of it.
#[verifier::external_body]
fn new_lock(s: MessageState) -> Mutex<MessageState> {
    Mutex::new(s)
}

/// `Mutex::lock` from std: waits for the lock and holds it until the guard
/// is dropped. It panics, as `unwrap` does, only when a thread panicked
/// while holding the lock; no code of this library panics while holding one.
#[verifier::external_body]
fn lock_state(m: &Mutex<MessageState>) -> MutexGuard<'_, MessageState> {
    m.lock().unwrap()
}

/// `Deref::deref` of a `MutexGuard` from std: the state under the held
/// lock. Another thread may have set it, so it is left open.
#[verifier::external_body]
fn read_locked(g: &MutexGuard<'_, MessageState>) -> MessageState {
    **g
}

/// `DerefMut::deref_mut` of a `MutexGuard` from std: stores `s` under the
/// held lock.
#[verifier::external_body]
fn write_locked(g: &mut MutexGuard<'_, MessageState>, s: MessageState) {
    **g = s;
}

/// Takes the lock of `state`, moves the state one step with `forget` while
/// the lock is held, and answers what `forget` answered.
fn forget_shared(state: &Mutex<MessageState>) -> bool {
    let mut guard = lock_state(state);
    let mut s = read_locked(&guard);
    let r = s.forget();
    write_locked(&mut guard, s);
    r
}

/// Takes the lock of `state`, moves the state one step with `receive` while
/// the lock is held, and answers what the receiver does, with the state the
/// lock held when it was taken.
fn receive_shared(state: &Mutex<MessageState>) -> (r: (Delivery, Ghost<MessageState>))
    ensures
        r.0 == receive_step(r.1@).1,
{
    let mut guard = lock_state(state);
    let mut s = read_locked(&guard);
    let ghost before = s;
    let d = s.receive();
    write_locked(&mut guard, s);
    (d, Ghost(before))
}

/// What the receiver met each time it asked the channel for a message: the
/// channel closed (every sender gone and nothing queued), or a message with
/// the state its lock held when the receiver took it.
pub enum Taken<T> {
    Closed,
    Message(T, MessageState),
}

/// A reference to a message in flight that its sender may still cancel
/// before the receiver takes it.
pub trait Forgettable {
    /// Tries to cancel the message: `true` if it was still waiting, or the
    /// receiver went away before taking it; `false` if the receiver
    /// already took it.
    fn forget(self) -> bool;
}

/// The sending side of a forgettable channel; clones share the channel.
pub trait ForgettableSender<T: Send + 'static>: Clone {
    /// The handle that cancels a queued message.
    type Handle: Forgettable + 'static;

    /// Queues `t`. `Some(handle)` when it was queued, where `handle` can
    /// cancel it later; `None` when the receiver is gone.
    fn send(&self, t: T) -> Option<Self::Handle>;
}

/// The receiving side of a forgettable channel.
pub trait ForgettableReceiver<T: Send + 'static> {
    /// Waits for a message that was not cancelled and returns it, in the
    /// order they were queued; cancelled messages are dropped unseen.
    /// `None` once every sender is gone and the queue is empty.
    fn recv(&self) -> Option<T>;
}

/// A queued value with the state it shares with its sender's handle.
pub struct Message<T> {
    value: T,
    state: Arc<Mutex<MessageState>>,
}

/// The handle that `send` returns.
pub struct Handler {
    state: Arc<Mutex<MessageState>>,
}

impl Forgettable for Handler {
    fn forget(self) -> bool {
        forget_shared(&*self.state)
    }
}

/// `Receiver::recv` from std: waits for the next queued message; `None`
/// once every sender is gone and the queue is empty. What arrives depends
/// on the senders and is left open.
#[verifier::external_body]
fn next_message<T>(rx: &Receiver<Message<T>>) -> Option<Message<T>> {
    rx.recv().ok()
}

/// `Sender::clone` from std: another sending end of the same channel.
#[verifier::external_body]
fn clone_sender<T>(tx: &Sender<Message<T>>) -> Sender<Message<T>> {
    tx.clone()
}

/// `std::sync::mpsc::channel` for the messages of a forgettable channel.
/// Which receiver a sender feeds is not something the forgettable channel
/// reasons about, so nothing is stated of the pair.
#[verifier::external_body]
fn open_message_channel<T>() -> (Sender<Message<T>>, Receiver<Message<T>>) {
    channel()
}

/// The sending side that `forgettable_channel` returns.
#[verifier::reject_recursive_types(T)]
pub struct ForgettableSenderImpl<T> {
    sender: Sender<Message<T>>,
}

impl<T: Send + 'static> ForgettableSender<T> for ForgettableSenderImpl<T> {
    type Handle = Handler;

    fn send(&self, t: T) -> Option<Handler> {
        let state = Arc::new(new_lock(MessageState::Pending));
        let kept = share(&state);
        if send_value(&self.sender, Message { value: t, state }) {
            Some(Handler { state: kept })
        } else {
            None
        }
    }
}

impl<T> Clone for ForgettableSenderImpl<T> {
    fn clone(&self) -> Self {
        ForgettableSenderImpl { sender: clone_sender(&self.sender) }
    }
}

/// The receiving side that `forgettable_channel` returns.
#[verifier::reject_recursive_types(T)]
pub struct ForgettableReceiverImpl<T> {
    receiver: Receiver<Message<T>>,
}

impl<T> ForgettableReceiverImpl<T> {
    /// Receives like `recv`, and also hands back what the receiver met, in
    /// order. It skips forgotten messages only: every message met before the
    /// last was forgotten. It delivers the value of the first message met
    /// that was still pending, which then becomes received. It answers
    /// `None` only when the channel reported itself closed, when the message
    /// met had already been received, or after skipping `u64::MAX`
    /// forgotten messages in a row.
    pub fn recv_logged(&self) -> (r: (Option<T>, Ghost<Seq<Taken<T>>>))
        ensures
            r.1@.len() >= 1,
            forall|i: int|
                0 <= i < r.1@.len() - 1 ==> (#[trigger] r.1@[i]) matches Taken::Message(_, MessageState::Forgotten),
            r.0 matches Some(v) ==> r.1@.last() == Taken::Message(v, MessageState::Pending),
            r.0 is None ==> r.1@.last() is Closed || r.1@.last() matches Taken::Message(_, MessageState::Received) || (
            r.1@.len() == u64::MAX && r.1@.last() matches Taken::Message(_, MessageState::Forgotten)),
    {
        let ghost mut log: Seq<Taken<T>> = Seq::empty();
        let mut budget: u64 = u64::MAX;
        while budget > 0
            invariant
                log.len() == u64::MAX - budget,
                forall|i: int| 0 <= i < log.len() ==> (#[trigger] log[i]) matches Taken::Message(_, MessageState::Forgotten),
            decreases budget,
        {
            budget = budget - 1;
            match next_message(&self.receiver) {
                None => {
                    proof {
                        log = log.push(Taken::Closed);
                    }
                    return (None, Ghost(log));
                },
                Some(message) => {
                    let (d, Ghost(before)) = receive_shared(&*message.state);
                    proof {
                        log = log.push(Taken::Message(message.value, before));
                    }
                    match d {
                        Delivery::Deliver => return (Some(message.value), Ghost(log)),
                        Delivery::Skip => {},
                        Delivery::Stop => return (None, Ghost(log)),
                    }
                },
            }
        }
        (None, Ghost(log))
    }
}

impl<T: Send + 'static> ForgettableReceiver<T> for ForgettableReceiverImpl<T> {
    /// Skips at most `u64::MAX` cancelled messages in one call, and answers
    /// `None` after that (see `recv_logged`).
    fn recv(&self) -> Option<T> {
        self.recv_logged().0
    }
}

/// A multi-producer, single-receiver channel whose messages their sender
/// can cancel until the receiver takes them.
pub fn forgettable_channel<T: Send + 'static>() -> (impl ForgettableSender<T>, impl ForgettableReceiver<T>) {
    let (tx, rx) = open_message_channel::<T>();
    (ForgettableSenderImpl { sender: tx }, ForgettableReceiverImpl { receiver: rx })
}

} // verus!
