use vstd::prelude::*;
use crate::blocking::Step;

verus! {

/// The state of a count-down lock: the number of operations still awaited.
/// Waiters are released once it reaches zero.
pub struct CountDownLock {
    pub counter: usize,
}

impl CountDownLock {
    /// A lock that waits for `n` operations.
    pub fn new(n: usize) -> (l: Self)
        ensures
            l.counter == n,
    {
        CountDownLock { counter: n }
    }

    /// Records one finished operation: the counter drops by one unless it is
    /// already zero. Returns whether the counter is now zero, that is,
    /// whether the waiters must be woken.
    pub fn count_down(&mut self) -> (wake: bool)
        ensures
            final(self).counter == count_down_step(old(self).counter as nat),
            wake == (final(self).counter == 0),
    {
        if self.counter > 0 {
            self.counter -= 1;
        }
        self.counter == 0
    }

    /// A waiter blocks while operations are still awaited and proceeds once
    /// the counter is zero.
    pub fn wait(&self) -> (s: Step<()>)
        ensures
            s is Block <==> self.counter > 0,
    {
        if self.counter > 0 {
            Step::Block
        } else {
            Step::Return(())
        }
    }

    /// A waiter with a deadline proceeds, reporting no timeout, once the
    /// counter is zero; otherwise it keeps waiting until `deadline_passed`,
    /// and then reports that it timed out.
    pub fn wait_timeout(&self, deadline_passed: bool) -> (s: Step<bool>)
        ensures
            self.counter == 0 ==> s == Step::Return(false),
            self.counter > 0 && deadline_passed ==> s == Step::Return(true),
            self.counter > 0 && !deadline_passed ==> s is Block,
    {
        if self.counter == 0 {
            Step::Return(false)
        } else if deadline_passed {
            Step::Return(true)
        } else {
            Step::Block
        }
    }
}

/// The counter after one `count_down`: one less, but never below zero.
pub open spec fn count_down_step(counter: nat) -> nat {
    if counter > 0 {
        (counter - 1) as nat
    } else {
        0
    }
}

/// The counter after `k` calls of `count_down`.
pub open spec fn after_count_downs(counter: nat, k: nat) -> nat
    decreases k,
{
    if k == 0 {
        counter
    } else {
        count_down_step(after_count_downs(counter, (k - 1) as nat))
    }
}

/// A lock created with `n` releases its waiters after exactly `n`
/// count-downs: after `k` of them `n - k` operations are still awaited, and
/// none once `k >= n`.
pub proof fn law_count_down_releases(n: nat, k: nat)
    ensures
        after_count_downs(n, k) == if k >= n { 0 } else { (n - k) as nat },
        after_count_downs(n, k) == 0 <==> k >= n,
    decreases k,
{
    if k > 0 {
        law_count_down_releases(n, (k - 1) as nat);
    }
}

/// Twice `x`: the new value of a cell whose value is doubled.
pub fn doubled(x: i32) -> (r: i32)
    requires
        i32::MIN <= 2 * x <= i32::MAX,
    ensures
        r == 2 * x,
{
    x * 2
}

} // verus!
