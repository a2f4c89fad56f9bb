//! How long to wait before connecting again.
use vstd::prelude::*;

verus! {

/// The first wait, in milliseconds.
pub const BASE_MS: u64 = 200;

/// The longest wait, in milliseconds.
pub const LIMIT_MS: u64 = 5000;

/// The wait after another: twice as long, up to the limit.
pub open spec fn doubled(ms: u64) -> u64 {
    if 2 * ms <= LIMIT_MS {
        (2 * ms) as u64
    } else {
        LIMIT_MS
    }
}

/// The wait before the `n`-th attempt after a good connection.
pub open spec fn wait_before(n: nat) -> u64
    decreases n,
{
    if n == 0 {
        BASE_MS
    } else {
        doubled(wait_before((n - 1) as nat))
    }
}

/// The waits between attempts to connect.
pub struct Backoff {
    ms: u64,
}

impl Backoff {
    /// The next wait, in milliseconds.
    pub closed spec fn next(&self) -> u64 {
        self.ms
    }

    /// The waits after a good connection.
    pub fn new() -> (r: Self)
        ensures
            r.next() == wait_before(0),
    {
        Backoff { ms: BASE_MS }
    }

    /// Starts over after a good connection.
    pub fn reset(&mut self)
        ensures
            final(self).next() == wait_before(0),
    {
        self.ms = BASE_MS;
    }

    /// How long to wait now; the next wait is twice as long, up to the limit.
    pub fn wait(&mut self) -> (r: u64)
        ensures
            r == old(self).next(),
            final(self).next() == doubled(old(self).next()),
    {
        let now: u64 = self.ms;
        self.ms = if now <= LIMIT_MS / 2 {
            2 * now
        } else {
            LIMIT_MS
        };
        now
    }
}

/// Waits grow and stay within the limit.
pub proof fn law_waits_grow_to_the_limit(n: nat)
    ensures
        BASE_MS <= wait_before(n) <= LIMIT_MS,
        wait_before(n) <= wait_before(n + 1),
        n >= 5 ==> wait_before(n) == LIMIT_MS,
    decreases n,
{
    if n > 0 {
        law_waits_grow_to_the_limit((n - 1) as nat);
        if n == 5 {
            assert(wait_before(0) == 200);
            assert(wait_before(1) == 400);
            assert(wait_before(2) == 800);
            assert(wait_before(3) == 1600);
            assert(wait_before(4) == 3200);
        }
    }
}

/// Each wait is twice the one before it, as far as the limit goes.
pub proof fn law_waits_double(n: nat)
    ensures
        wait_before(0) == BASE_MS,
        2 * wait_before(n) <= LIMIT_MS ==> wait_before(n + 1) == 2 * wait_before(n),
        2 * wait_before(n) > LIMIT_MS ==> wait_before(n + 1) == LIMIT_MS,
{
}

} // verus!
