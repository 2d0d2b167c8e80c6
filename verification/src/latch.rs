use vstd::prelude::*;
use crate::blocking::Step;

verus! {

/// How a wait on a [`CancelableLatch`] ended.
#[derive(PartialEq, Eq, Debug, Structural)]
pub enum WaitResult {
    Success,
    Timeout,
    Canceled,
}

/// A latch that waiters wait on until a number of tasks have finished
/// successfully, or until one of them reports a failure.
///
/// The methods act on the latch's state; the caller blocks while a wait
/// answers [`Step::Block`] and wakes the waiters when told to.
pub trait CancelableLatch: Sized {
    /// The number of tasks still awaited.
    spec fn remaining(&self) -> nat;

    /// Whether a task has reported a failure.
    spec fn is_canceled(&self) -> bool;

    /// A latch that awaits `count` tasks.
    fn new(count: usize) -> (l: Self)
        ensures
            l.remaining() == count,
            !l.is_canceled();

    /// One task finished successfully: unless the latch is canceled or
    /// already open, one task fewer is awaited. Returns whether this opened
    /// the latch, so that the waiters must be woken.
    fn count_down(&mut self) -> (wake: bool)
        ensures
            final(self).is_canceled() == old(self).is_canceled(),
            final(self).remaining() == if old(self).remaining() > 0 && !old(self).is_canceled() {
                (old(self).remaining() - 1) as nat
            } else {
                old(self).remaining()
            },
            wake == (old(self).remaining() > 0 && !old(self).is_canceled() && final(self).remaining() == 0);

    /// One task failed: the latch is canceled for good, and the waiters must
    /// be woken.
    fn cancel(&mut self)
        ensures
            final(self).is_canceled(),
            final(self).remaining() == old(self).remaining();

    /// A waiter blocks while tasks are awaited and the latch is not
    /// canceled; then it reports `Canceled` if the latch was canceled and
    /// `Success` otherwise.
    fn wait(&self) -> (s: Step<WaitResult>)
        ensures
            s is Block <==> (self.remaining() > 0 && !self.is_canceled()),
            self.is_canceled() ==> s == Step::Return(WaitResult::Canceled),
            !self.is_canceled() && self.remaining() == 0 ==> s == Step::Return(WaitResult::Success);

    /// Like [`CancelableLatch::wait`], except that a waiter whose deadline
    /// has passed while it still had to wait reports `Timeout`.
    fn wait_timeout(&self, deadline_passed: bool) -> (s: Step<WaitResult>)
        ensures
            self.is_canceled() ==> s == Step::Return(WaitResult::Canceled),
            !self.is_canceled() && self.remaining() == 0 ==> s == Step::Return(WaitResult::Success),
            !self.is_canceled() && self.remaining() > 0 ==> s == if deadline_passed {
                Step::Return(WaitResult::Timeout)
            } else {
                Step::Block
            };
}

/// The state of a cancelable latch: the number of tasks still awaited and
/// whether one of them failed.
pub struct CancelableLatchImpl {
    pub count: usize,
    pub canceled: bool,
}

impl CancelableLatch for CancelableLatchImpl {
    open spec fn remaining(&self) -> nat {
        self.count as nat
    }

    open spec fn is_canceled(&self) -> bool {
        self.canceled
    }

    fn new(count: usize) -> (l: Self) {
        CancelableLatchImpl { count, canceled: false }
    }

    fn count_down(&mut self) -> (wake: bool)
        ensures
            (*final(self), wake) == old(self).count_down_result(),
    {
        if self.count > 0 && !self.canceled {
            self.count -= 1;
            self.count == 0
        } else {
            false
        }
    }

    fn cancel(&mut self) {
        self.canceled = true;
    }

    fn wait(&self) -> (s: Step<WaitResult>)
        ensures
            s == self.wait_result(),
    {
        if self.count > 0 && !self.canceled {
            Step::Block
        } else if self.canceled {
            Step::Return(WaitResult::Canceled)
        } else {
            Step::Return(WaitResult::Success)
        }
    }

    fn wait_timeout(&self, deadline_passed: bool) -> (s: Step<WaitResult>)
        ensures
            s == self.wait_timeout_result(deadline_passed),
    {
        if self.count > 0 && !self.canceled {
            if deadline_passed {
                Step::Return(WaitResult::Timeout)
            } else {
                Step::Block
            }
        } else if self.canceled {
            Step::Return(WaitResult::Canceled)
        } else {
            Step::Return(WaitResult::Success)
        }
    }
}

/// Cancellation is final: once canceled, a latch stays canceled through any
/// further count-down or cancel, and every wait ends with `Canceled`, with or
/// without a deadline.
pub proof fn law_cancel_is_final(l: CancelableLatchImpl, deadline_passed: bool)
    requires
        l.is_canceled(),
    ensures
        l.count_down_result().0.is_canceled(),
        l.count_down_result().0.remaining() == l.remaining(),
        !l.count_down_result().1,
        l.wait_result() == Step::Return(WaitResult::Canceled),
        l.wait_timeout_result(deadline_passed) == Step::Return(WaitResult::Canceled),
{
}

/// A latch that is not canceled and has no task left lets every waiter
/// through with `Success`, even one whose deadline has passed.
pub proof fn law_open_latch_succeeds(l: CancelableLatchImpl, deadline_passed: bool)
    requires
        !l.is_canceled(),
        l.remaining() == 0,
    ensures
        l.wait_result() == Step::Return(WaitResult::Success),
        l.wait_timeout_result(deadline_passed) == Step::Return(WaitResult::Success),
{
}

/// The latch after `k` successful tasks and no failure.
pub open spec fn after_count_downs(l: CancelableLatchImpl, k: nat) -> CancelableLatchImpl
    decreases k,
{
    if k == 0 {
        l
    } else {
        after_count_downs(l, (k - 1) as nat).count_down_result().0
    }
}

/// A latch created for `count` tasks opens at the `count`-th successful
/// task, wakes its waiters exactly then, and lets every later wait through
/// with `Success`.
pub proof fn law_latch_opens_after_count(count: usize, k: nat)
    requires
        1 <= k,
    ensures
        ({
            let fresh = CancelableLatchImpl { count: count, canceled: false };
            let before = after_count_downs(fresh, (k - 1) as nat);
            &&& after_count_downs(fresh, k).remaining() == if k >= count { 0 } else { count - k }
            &&& !after_count_downs(fresh, k).is_canceled()
            &&& before.count_down_result().1 == (k == count)
            &&& k >= count ==> after_count_downs(fresh, k).wait_result() == Step::Return(WaitResult::Success)
        }),
    decreases k,
{
    let fresh = CancelableLatchImpl { count: count, canceled: false };
    if k > 1 {
        law_latch_opens_after_count(count, (k - 1) as nat);
    } else {
        assert(after_count_downs(fresh, 0) == fresh);
    }
    assert(after_count_downs(fresh, k) == after_count_downs(fresh, (k - 1) as nat).count_down_result().0);
}

impl CancelableLatchImpl {
    /// The state and wake-up flag that `count_down` produces.
    pub open spec fn count_down_result(self) -> (CancelableLatchImpl, bool) {
        if self.count > 0 && !self.canceled {
            (CancelableLatchImpl { count: (self.count - 1) as usize, canceled: false }, self.count == 1)
        } else {
            (self, false)
        }
    }

    /// What `wait` answers on this state.
    pub open spec fn wait_result(self) -> Step<WaitResult> {
        if self.count > 0 && !self.canceled {
            Step::Block
        } else if self.canceled {
            Step::Return(WaitResult::Canceled)
        } else {
            Step::Return(WaitResult::Success)
        }
    }

    /// What `wait_timeout` answers on this state.
    pub open spec fn wait_timeout_result(self, deadline_passed: bool) -> Step<WaitResult> {
        if self.count > 0 && !self.canceled {
            if deadline_passed {
                Step::Return(WaitResult::Timeout)
            } else {
                Step::Block
            }
        } else if self.canceled {
            Step::Return(WaitResult::Canceled)
        } else {
            Step::Return(WaitResult::Success)
        }
    }
}

} // verus!
