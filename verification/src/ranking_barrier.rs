use vstd::prelude::*;

verus! {

/// The state of a cyclic barrier for `threads` threads that ranks them by
/// arrival: `arrived` threads of the current round are waiting, and
/// `released` tells whether the last round has been let through.
pub struct RankingBarrier {
    pub threads: usize,
    pub arrived: usize,
    pub released: bool,
}

impl RankingBarrier {
    /// The state and the answer `(rank, released)` after one more arrival:
    /// the arrival gets the next rank; the arrival that completes the round
    /// releases it and starts a new round, any other one closes the barrier
    /// and has to wait.
    pub open spec fn arrive(self) -> (RankingBarrier, (usize, bool)) {
        let rank = (self.arrived + 1) as usize;
        if rank == self.threads {
            (RankingBarrier { threads: self.threads, arrived: 0, released: true }, (rank, true))
        } else {
            (RankingBarrier { threads: self.threads, arrived: rank, released: false }, (rank, false))
        }
    }

    /// The state after `k` arrivals.
    pub open spec fn after_arrivals(self, k: nat) -> RankingBarrier
        decreases k,
    {
        if k == 0 {
            self
        } else {
            self.after_arrivals((k - 1) as nat).arrive().0
        }
    }

    /// A barrier for `n` threads with nobody waiting.
    pub fn new(n: usize) -> (b: Self)
        ensures
            b.threads == n,
            b.arrived == 0,
            !b.released,
    {
        RankingBarrier { threads: n, arrived: 0, released: false }
    }

    /// One thread arrives and gets its rank. When its rank completes the
    /// round it returns `(rank, true)` and the others must be woken;
    /// otherwise it returns `(rank, false)` and the caller waits until the
    /// barrier is released.
    pub fn wait(&mut self) -> (r: (usize, bool))
        requires
            old(self).arrived < usize::MAX,
        ensures
            (*final(self), r) == old(self).arrive(),
    {
        self.arrived += 1;
        let rank = self.arrived;
        if rank == self.threads {
            self.released = true;
            self.arrived = 0;
            (rank, true)
        } else {
            self.released = false;
            (rank, false)
        }
    }

    /// Whether the last round has been let through.
    pub fn is_released(&self) -> (b: bool)
        ensures
            b == self.released,
    {
        self.released
    }
}

/// Ranking: starting a round with nobody waiting, the `k`-th arrival of the
/// round gets rank `k`, only the `threads`-th one releases the round (after
/// fewer arrivals the barrier is closed and the arrivals keep waiting), and
/// then the barrier is ready for the next round.
pub proof fn law_round_ranks(b: RankingBarrier, k: nat)
    requires
        b.arrived == 0,
        1 <= k <= b.threads,
    ensures
        b.after_arrivals((k - 1) as nat).arrive().1 == (k as usize, k == b.threads),
        b.after_arrivals(k).arrived == if k == b.threads { 0 } else { k },
        b.after_arrivals(k).threads == b.threads,
        b.after_arrivals(k).released == (k == b.threads),
    decreases k,
{
    assert(b.after_arrivals(k) == b.after_arrivals((k - 1) as nat).arrive().0);
    if k > 1 {
        law_round_ranks(b, (k - 1) as nat);
    } else {
        assert(b.after_arrivals(0) == b);
    }
}

} // verus!
