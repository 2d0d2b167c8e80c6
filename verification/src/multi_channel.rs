use vstd::prelude::*;
use std::sync::mpsc::Receiver;
use crate::subscription::{connected, open_channel, try_deliver, Subscriber};

verus! {

/// Returned by [`MultiChannel::send`] when no receiver took the byte; it
/// hands back the byte that was not sent.
#[derive(Debug, PartialEq, Eq)]
pub struct SendError(pub u8);

/// The items of `items` whose flag in `flags` is set, in order.
pub open spec fn flagged<T>(items: Seq<T>, flags: Seq<bool>) -> Seq<T>
    decreases items.len(),
{
    if items.len() == 0 || flags.len() == 0 {
        Seq::empty()
    } else {
        let rest = flagged(items.drop_last(), flags.drop_last());
        if flags.last() {
            rest.push(items.last())
        } else {
            rest
        }
    }
}

/// The bytes of a delivery record that the channel accepted, in order.
pub open spec fn accepted_bytes(log: Seq<(u8, bool)>) -> Seq<u8>
    decreases log.len(),
{
    if log.len() == 0 {
        Seq::empty()
    } else if log.last().1 {
        accepted_bytes(log.drop_last()).push(log.last().0)
    } else {
        accepted_bytes(log.drop_last())
    }
}

/// `after` is `before` once `send(data)` handed `data` to every subscriber,
/// `ok[i]` telling whether subscriber `i` accepted it.
pub open spec fn handed_to_all(before: Seq<Subscriber>, data: u8, ok: Seq<bool>, after: Seq<Subscriber>) -> bool {
    &&& ok.len() == before.len()
    &&& after.len() == before.len()
    &&& forall|i: int|
        0 <= i < before.len() ==> (#[trigger] after[i]).sender() == before[i].sender()
            && after[i].deliveries() == before[i].deliveries().push((data, ok[i]))
}

/// The negation of each flag.
pub open spec fn negated(flags: Seq<bool>) -> Seq<bool> {
    flags.map_values(|b: bool| !b)
}

/// A channel of bytes with many senders and many receivers: each byte sent
/// goes to every receiver currently subscribed. Subscribers whose receiver
/// is gone are dropped, and the channel keeps the record of each one as it
/// was dropped.
pub struct MultiChannel {
    subs: Vec<Subscriber>,
    retired: Ghost<Seq<Subscriber>>,
}

impl MultiChannel {
    /// The live subscribers, oldest first.
    pub closed spec fn subscribers(&self) -> Seq<Subscriber> {
        self.subs@
    }

    /// The subscribers dropped so far, in the order they were dropped.
    pub closed spec fn retired(&self) -> Seq<Subscriber> {
        self.retired@
    }

    /// A channel with no subscriber.
    pub fn new() -> (c: Self)
        ensures
            c.subscribers() == Seq::<Subscriber>::empty(),
            c.retired() == Seq::<Subscriber>::empty(),
    {
        MultiChannel { subs: Vec::new(), retired: Ghost(Seq::empty()) }
    }

    /// Subscribes a new receiver: its subscriber, which feeds the returned
    /// receiver, comes last and has been handed nothing yet.
    pub fn subscribe(&mut self) -> (rx: Receiver<u8>)
        ensures
            final(self).subscribers().len() == old(self).subscribers().len() + 1,
            final(self).subscribers().drop_last() == old(self).subscribers(),
            connected(final(self).subscribers().last().sender(), rx),
            final(self).subscribers().last().deliveries() == Seq::<(u8, bool)>::empty(),
            final(self).retired() == old(self).retired(),
    {
        let (tx, rx) = open_channel();
        self.subs.push(Subscriber::new(tx));
        assert(self.subs@.drop_last() =~= old(self).subs@);
        rx
    }

    /// Hands `data` to every subscriber, keeps those whose receiver
    /// accepted it, in order, and drops the others. Fails, handing `data`
    /// back, when no receiver accepted it (in particular when there was no
    /// subscriber).
    pub fn send(&mut self, data: u8) -> (r: Result<(), SendError>)
        ensures
            exists|ok: Seq<bool>, after: Seq<Subscriber>|
                #[trigger] handed_to_all(old(self).subscribers(), data, ok, after) && final(self).subscribers()
                    == flagged(after, ok) && final(self).retired() == old(self).retired() + flagged(
                    after,
                    negated(ok),
                ),
            r == if final(self).subscribers().len() == 0 {
                Err::<(), SendError>(SendError(data))
            } else {
                Ok(())
            },
    {
        let ghost before = self.subs@;
        let mut rest: Vec<Subscriber> = Vec::new();
        core::mem::swap(&mut self.subs, &mut rest);
        let mut kept: Vec<Subscriber> = Vec::new();
        let ghost mut ok: Seq<bool> = Seq::empty();
        let ghost mut after: Seq<Subscriber> = Seq::empty();
        let ghost mut dropped: Seq<Subscriber> = Seq::empty();
        let ghost n = before.len();
        let total = rest.len();
        let mut i: usize = 0;
        while rest.len() > 0
            invariant
                total == n,
                i + rest@.len() == n,
                n == before.len(),
                rest@ == before.skip(i as int),
                ok.len() == i,
                handed_to_all(before.take(i as int), data, ok, after),
                kept@ == flagged(after, ok),
                dropped == flagged(after, negated(ok)),
            decreases rest@.len(),
        {
            let mut s = rest.remove(0);
            assert(s == before[i as int]);
            let accepted = try_deliver(&mut s, data);
            proof {
                let ghost prev_ok = ok;
                let ghost prev_after = after;
                ok = ok.push(accepted);
                after = after.push(s);
                assert(ok.drop_last() == prev_ok);
                assert(after.drop_last() == prev_after);
                assert(negated(ok).drop_last() =~= negated(prev_ok));
                if !accepted {
                    dropped = dropped.push(s);
                }
                assert(before.take(i + 1).drop_last() =~= before.take(i as int));
                assert forall|k: int| 0 <= k < i + 1 implies (#[trigger] after[k]).sender() == before.take(
                    i + 1,
                )[k].sender() && after[k].deliveries() == before.take(i + 1)[k].deliveries().push(
                    (data, ok[k]),
                ) by {
                    if k < i {
                        assert(after[k] == prev_after[k]);
                        assert(before.take(i + 1)[k] == before.take(i as int)[k]);
                    }
                }
                assert(rest@ =~= before.skip(i + 1));
            }
            if accepted {
                kept.push(s);
            }
            i += 1;
        }
        assert(before.take(n as int) =~= before);
        self.subs = kept;
        proof {
            self.retired@ = self.retired@ + dropped;
            assert(handed_to_all(old(self).subscribers(), data, ok, after));
            assert(self.subscribers() == flagged(after, ok));
        }
        if self.subs.len() == 0 {
            Err(SendError(data))
        } else {
            Ok(())
        }
    }
}

/// Broadcast: a subscriber that accepts a byte stays subscribed, keeping
/// its place among the others, with that byte appended to its record.
/// Since a new subscriber starts with an empty record, the bytes a live
/// subscriber's receiver got are exactly those sent since it subscribed.
pub proof fn law_broadcast_reaches_live_subscribers(
    before: Seq<Subscriber>,
    data: u8,
    ok: Seq<bool>,
    after: Seq<Subscriber>,
    i: int,
)
    requires
        handed_to_all(before, data, ok, after),
        0 <= i < before.len(),
        ok[i],
    ensures
        flagged(after, ok).contains(after[i]),
        after[i].sender() == before[i].sender(),
        accepted_bytes(after[i].deliveries()) == accepted_bytes(before[i].deliveries()).push(data),
{
    lemma_flagged_contains(after, ok, i);
    assert(after[i].deliveries().drop_last() == before[i].deliveries());
}

/// A subscriber that refuses a byte is dropped and kept among the retired
/// ones, with the refusal on its record.
pub proof fn law_dead_subscribers_are_dropped(
    before: Seq<Subscriber>,
    data: u8,
    ok: Seq<bool>,
    after: Seq<Subscriber>,
    i: int,
)
    requires
        handed_to_all(before, data, ok, after),
        0 <= i < before.len(),
        !ok[i],
    ensures
        flagged(after, negated(ok)).contains(after[i]),
        after[i].deliveries().last() == (data, false),
        accepted_bytes(after[i].deliveries()) == accepted_bytes(before[i].deliveries()),
{
    lemma_flagged_contains(after, negated(ok), i);
    assert(after[i].deliveries().drop_last() == before[i].deliveries());
}

/// An item whose flag is set survives `flagged`.
proof fn lemma_flagged_contains<T>(items: Seq<T>, flags: Seq<bool>, i: int)
    requires
        items.len() == flags.len(),
        0 <= i < items.len(),
        flags[i],
    ensures
        flagged(items, flags).contains(items[i]),
    decreases items.len(),
{
    if i == items.len() - 1 {
        assert(flagged(items, flags).last() == items[i]);
    } else {
        lemma_flagged_contains(items.drop_last(), flags.drop_last(), i);
        let k = choose|k: int|
            0 <= k < flagged(items.drop_last(), flags.drop_last()).len() && flagged(
                items.drop_last(),
                flags.drop_last(),
            )[k] == items.drop_last()[i];
        assert(flagged(items, flags)[k] == items[i]);
    }
}

} // verus!
