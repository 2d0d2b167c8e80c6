use vstd::prelude::*;
use std::sync::mpsc::{channel, Receiver, Sender};

verus! {

#[verifier::external_type_specification]
#[verifier::external_body]
#[verifier::reject_recursive_types(T)]
pub struct ExSender<T>(Sender<T>);

#[verifier::external_type_specification]
#[verifier::external_body]
#[verifier::reject_recursive_types(T)]
pub struct ExReceiver<T>(Receiver<T>);

/// Whether `tx` is the sending end of the channel that `rx` receives from.
pub uninterp spec fn connected(tx: Sender<u8>, rx: Receiver<u8>) -> bool;

/// `std::sync::mpsc::channel`: a new channel; the sender it returns feeds
/// the receiver it returns.
#[verifier::external_body]
pub(crate) fn open_channel() -> (r: (Sender<u8>, Receiver<u8>))
    ensures
        connected(r.0, r.1),
{
    channel()
}

/// The sending end of one subscriber, with the record of every byte handed
/// to it and whether its channel accepted it.
pub struct Subscriber {
    sender: Sender<u8>,
    deliveries: Ghost<Seq<(u8, bool)>>,
}

impl Subscriber {
    /// The sending end.
    pub closed spec fn sender(&self) -> Sender<u8> {
        self.sender
    }

    /// Every byte handed to this subscriber, oldest first, each with
    /// whether its channel accepted it.
    pub closed spec fn deliveries(&self) -> Seq<(u8, bool)> {
        self.deliveries@
    }

    /// A subscriber for `sender` that has been handed nothing yet.
    pub fn new(sender: Sender<u8>) -> (s: Self)
        ensures
            s.sender() == sender,
            s.deliveries() == Seq::<(u8, bool)>::empty(),
    {
        Subscriber { sender, deliveries: Ghost(Seq::empty()) }
    }
}

/// `Sender::send` from std: whether `v` was queued for the receiving end,
/// which fails once that end is gone. The answer depends on the receiving
/// side and is left open.
#[verifier::external_body]
pub(crate) fn send_value<T>(tx: &Sender<T>, v: T) -> bool {
    tx.send(v).is_ok()
}

/// Hands `data` to the subscriber's channel; the record gains `data` with
/// whether the channel accepted it.
pub(crate) fn try_deliver(sub: &mut Subscriber, data: u8) -> (ok: bool)
    ensures
        final(sub).sender() == old(sub).sender(),
        final(sub).deliveries() == old(sub).deliveries().push((data, ok)),
{
    let ok = send_value(&sub.sender, data);
    proof {
        sub.deliveries@ = sub.deliveries@.push((data, ok));
    }
    ok
}

} // verus!
