use vstd::prelude::*;

verus! {

/// Where a token manager stands: no token yet (or the last acquisition
/// failed), an acquisition under way, or a token that is valid until its
/// expiry.
#[derive(PartialEq, Eq, Debug, Structural)]
pub enum TokenManagerState {
    Empty,
    Pending,
    Valid,
}

/// A source of tokens: each call yields a token with its expiry, or an
/// error.
pub type TokenAcquirer = dyn Fn() -> Result<(String, u64), String> + Sync + Send;

/// The message of the error that a failed acquisition reports.
pub open spec fn failure_message() -> Seq<char> {
    seq!['f', 'a', 'i', 'l', 'u', 'r', 'e']
}

/// Hands out an access token, acquiring a new one through `acquire` when
/// there is none or the current one has expired. Times are ticks of a
/// monotonic clock; a token is valid up to and including its expiry.
pub struct TokenManager<F> {
    acquire: F,
    state: TokenManagerState,
    token: String,
    expiry: u64,
}

fn failure() -> (s: String)
    ensures
        s@ == failure_message(),
{
    let mut s = String::new();
    s.append("failure");
    proof {
        reveal_strlit("failure");
    }
    assert(s@ =~= failure_message());
    s
}

impl<F: Fn() -> Result<(String, u64), String>> TokenManager<F> {
    /// The current state.
    pub closed spec fn spec_state(&self) -> TokenManagerState {
        self.state
    }

    /// The last token acquired.
    pub closed spec fn spec_token(&self) -> Seq<char> {
        self.token@
    }

    /// The expiry of the last token acquired.
    pub closed spec fn spec_expiry(&self) -> u64 {
        self.expiry
    }

    /// The acquirer.
    pub closed spec fn acquirer(&self) -> F {
        self.acquire
    }

    /// Whether the manager holds a token that is still valid at `now`.
    pub open spec fn holds_valid(&self, now: u64) -> bool {
        self.spec_state() == TokenManagerState::Valid && now <= self.spec_expiry()
    }

    /// This manager, after an acquisition that ended with `outcome`, and the
    /// answer `r`: a token makes it valid until the token's expiry and is
    /// answered; a failure leaves it empty and answers "failure".
    pub open spec fn settled_by(&self, outcome: Result<(String, u64), String>, r: Result<String, String>) -> bool {
        match outcome {
            Ok((token, expiry)) => {
                &&& r matches Ok(t) && t@ == token@
                &&& self.spec_state() == TokenManagerState::Valid
                &&& self.spec_token() == token@
                &&& self.spec_expiry() == expiry
            },
            Err(_) => {
                &&& r matches Err(e) && e@ == failure_message()
                &&& self.spec_state() == TokenManagerState::Empty
            },
        }
    }

    /// Outside an acquisition the manager is never pending.
    pub open spec fn wf(&self) -> bool {
        self.spec_state() != TokenManagerState::Pending
    }

    /// A manager with no token that acquires tokens through `acquire_token`.
    pub fn new(acquire_token: F) -> (m: Self)
        ensures
            m.wf(),
            m.spec_state() == TokenManagerState::Empty,
            m.acquirer() == acquire_token,
    {
        TokenManager { acquire: acquire_token, state: TokenManagerState::Empty, token: String::new(), expiry: 0 }
    }

    /// Records the outcome of an acquisition and answers for it: a new
    /// token makes the manager valid until the token's expiry and is
    /// returned; a failure leaves the manager empty and reports "failure".
    pub fn finish_acquire(&mut self, outcome: Result<(String, u64), String>) -> (r: Result<String, String>)
        ensures
            final(self).wf(),
            final(self).acquirer() == old(self).acquirer(),
            final(self).settled_by(outcome, r),
    {
        match outcome {
            Ok((token, expiry)) => {
                self.token = token;
                self.expiry = expiry;
                self.state = TokenManagerState::Valid;
                Ok(self.token.clone())
            },
            Err(_) => {
                self.state = TokenManagerState::Empty;
                Err(failure())
            },
        }
    }

    /// The token, valid at `now`: the current one while it has not expired,
    /// otherwise a new one from the acquirer, which is called exactly once;
    /// if that fails, the error "failure".
    pub fn get_token(&mut self, now: u64) -> (r: Result<String, String>)
        requires
            old(self).wf(),
            call_requires(old(self).acquirer(), ()),
        ensures
            final(self).wf(),
            final(self).acquirer() == old(self).acquirer(),
            old(self).holds_valid(now) ==> (r matches Ok(t) && t@ == old(self).spec_token()),
            old(self).holds_valid(now) ==> *final(self) == *old(self),
            !old(self).holds_valid(now) ==> exists|outcome: Result<(String, u64), String>|
                #[trigger] call_ensures(old(self).acquirer(), (), outcome) && final(self).settled_by(outcome, r),
    {
        if self.state == TokenManagerState::Valid && now <= self.expiry {
            return Ok(self.token.clone());
        }
        self.state = TokenManagerState::Pending;
        let outcome = (self.acquire)();
        assert(call_ensures(old(self).acquirer(), (), outcome));
        self.finish_acquire(outcome)
    }

    /// Without waiting: `None` unless the manager holds a token valid at
    /// `now`; then a fresh call of the acquirer, whose outcome is handed
    /// back as is: `Ok` with the new token, or the acquirer's error.
    pub fn try_get_token(&self, now: u64) -> (r: Option<Result<String, String>>)
        requires
            self.holds_valid(now) ==> call_requires(self.acquirer(), ()),
        ensures
            !self.holds_valid(now) ==> r is None,
            self.holds_valid(now) ==> exists|o: Result<(String, u64), String>|
                #[trigger] call_ensures(self.acquirer(), (), o) && match o {
                    Ok((t, _)) => r matches Some(Ok(s)) && s@ == t@,
                    Err(e) => r matches Some(Err(x)) && x@ == e@,
                },
    {
        if self.state == TokenManagerState::Valid && now <= self.expiry {
            let outcome = (self.acquire)();
            assert(call_ensures(self.acquirer(), (), outcome));
            match outcome {
                Ok((token, _)) => Some(Ok(token)),
                Err(e) => Some(Err(e)),
            }
        } else {
            None
        }
    }

    /// Replaces the acquirer used from now on; the state and the token
    /// are kept.
    pub fn replace_acquirer(&mut self, acquire_token: F)
        ensures
            final(self).acquirer() == acquire_token,
            final(self).spec_state() == old(self).spec_state(),
            final(self).spec_token() == old(self).spec_token(),
            final(self).spec_expiry() == old(self).spec_expiry(),
    {
        self.acquire = acquire_token;
    }
}

/// A token that was just acquired with expiry `expiry` is handed out again,
/// without a new acquisition, at every instant up to its expiry, and is
/// stale afterwards.
pub proof fn law_token_reused_until_expiry<F: Fn() -> Result<(String, u64), String>>(
    m: TokenManager<F>,
    token: String,
    expiry: u64,
    r: Result<String, String>,
    now: u64,
)
    requires
        m.settled_by(Ok((token, expiry)), r),
    ensures
        now <= expiry ==> m.holds_valid(now) && m.spec_token() == token@,
        now > expiry ==> !m.holds_valid(now),
{
}

/// After a failed acquisition the manager holds no token, so the next
/// request acquires again.
pub proof fn law_failure_leaves_no_token<F: Fn() -> Result<(String, u64), String>>(
    m: TokenManager<F>,
    e: String,
    r: Result<String, String>,
    now: u64,
)
    requires
        m.settled_by(Err(e), r),
    ensures
        !m.holds_valid(now),
        m.wf(),
{
}

} // verus!
