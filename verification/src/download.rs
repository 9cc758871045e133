//! The downloader's decision logic: which fetch failures are worth
//! retrying, how many attempts are allowed, and how long to back off
//! before each retry.  The transfer itself is driven from outside
//! the library; these functions decide.

use vstd::prelude::*;

verus! {

/// Why a fetch attempt failed.
#[derive(Debug, Clone, Copy, PartialEq, Eq, Structural)]
pub enum FetchFailure {
    /// The connection could not be made.
    ConnectFailed,
    /// The transfer timed out.
    TimedOut,
    /// The server answered with a status outside the success range.
    Status(u16),
    /// The response could not be read as expected; not transient.
    MalformedResponse,
}

/// Connection trouble, timeouts and non-success statuses are
/// transient; a malformed response is not.
pub open spec fn transient(f: FetchFailure) -> bool {
    match f {
        FetchFailure::ConnectFailed => true,
        FetchFailure::TimedOut => true,
        FetchFailure::Status(code) => !(200 <= code < 300),
        FetchFailure::MalformedResponse => false,
    }
}

/// A response status in the success range.
pub fn status_is_success(code: u16) -> (r: bool)
    ensures
        r == (200 <= code < 300),
{
    200 <= code && code < 300
}

/// Bounded attempts, exponential backoff with a capped delay.
#[derive(Debug, Clone, Copy, PartialEq, Eq, Structural)]
pub struct RetryPolicy {
    pub max_attempts: u32,
    pub base_delay_ms: u64,
    pub max_delay_ms: u64,
}

/// The delay before retry number `attempt`, counted from zero: the
/// base delay, doubled per attempt, never above the cap.
pub open spec fn delay_spec(p: RetryPolicy, attempt: nat) -> nat
    decreases attempt,
{
    if attempt == 0 {
        if p.base_delay_ms > p.max_delay_ms {
            p.max_delay_ms as nat
        } else {
            p.base_delay_ms as nat
        }
    } else {
        let prev = delay_spec(p, (attempt - 1) as nat);
        if 2 * prev > p.max_delay_ms {
            p.max_delay_ms as nat
        } else {
            2 * prev
        }
    }
}

/// The backoff before retry number `attempt`.
pub fn backoff_delay_ms(p: &RetryPolicy, attempt: u32) -> (r: u64)
    ensures
        r == delay_spec(*p, attempt as nat),
        r <= p.max_delay_ms,
{
    let mut d: u64 = if p.base_delay_ms > p.max_delay_ms {
        p.max_delay_ms
    } else {
        p.base_delay_ms
    };
    let mut k: u32 = 0;
    while k < attempt
        invariant
            0 <= k <= attempt,
            d == delay_spec(*p, k as nat),
            d <= p.max_delay_ms,
        decreases attempt - k,
    {
        proof {
            assert(2 * d > p.max_delay_ms <==> d > p.max_delay_ms / 2) by (nonlinear_arith)
                requires
                    0 <= d,
                    0 <= p.max_delay_ms,
            ;
        }
        if d > p.max_delay_ms / 2 {
            d = p.max_delay_ms;
        } else {
            d = d * 2;
        }
        k = k + 1;
    }
    d
}

/// Whether a failed attempt is followed by another: only transient
/// failures, and only while the attempt budget lasts.
pub fn should_retry(p: &RetryPolicy, failure: &FetchFailure, attempt: u32) -> (r: bool)
    ensures
        r == (transient(*failure) && attempt + 1 < p.max_attempts),
{
    let t = match *failure {
        FetchFailure::ConnectFailed => true,
        FetchFailure::TimedOut => true,
        FetchFailure::Status(code) => !(200 <= code && code < 300),
        FetchFailure::MalformedResponse => false,
    };
    t && attempt < u32::MAX && attempt + 1 < p.max_attempts
}

} // verus!
