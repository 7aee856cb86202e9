//! Building blocks of the task web service: response envelopes, error
//! kinds, request payloads, and a sliding-window rate limiter.
//!
//! The limiter keeps, per client address, the send times inside the current
//! window. A request is allowed exactly when fewer than the configured
//! maximum remain in the window, and an allowed request's time is recorded.

use crate::assoc::StringTable;
use crate::clock::current_timestamp;
use vstd::prelude::*;

verus! {

pub struct ApiResponse<T> {
    pub success: bool,
    pub data: Option<T>,
    pub error: Option<String>,
    pub timestamp: u64,
}

impl<T> ApiResponse<T> {
    /// A success envelope around `data`, stamped with the wall clock.
    pub fn success(data: T) -> (r: Self)
        ensures
            r.success,
            r.data == Some(data),
            r.error is None,
    {
        ApiResponse { success: true, data: Some(data), error: None, timestamp: current_timestamp() }
    }

    /// A failure envelope around `message`, stamped with the wall clock.
    pub fn error(message: String) -> (r: Self)
        ensures
            !r.success,
            r.data is None,
            r.error == Some(message),
    {
        ApiResponse {
            success: false,
            data: None,
            error: Some(message),
            timestamp: current_timestamp(),
        }
    }
}

#[derive(Debug)]
pub enum DatabaseError {
    NotFound,
    InvalidInput(String),
    Internal(String),
}

#[derive(Debug)]
pub enum WebError {
    Database(DatabaseError),
    NotFound,
    BadRequest(String),
    Unauthorized,
    RateLimitExceeded,
    Internal(String),
}

/// How a storage error surfaces to a web client: a missing record stays
/// missing, bad input becomes a bad request, the rest stays internal.
pub open spec fn web_error_from_spec(err: DatabaseError) -> WebError {
    match err {
        DatabaseError::NotFound => WebError::NotFound,
        DatabaseError::InvalidInput(msg) => WebError::BadRequest(msg),
        DatabaseError::Internal(msg) => WebError::Internal(msg),
    }
}

impl From<DatabaseError> for WebError {
    fn from(err: DatabaseError) -> (r: WebError) {
        match err {
            DatabaseError::NotFound => WebError::NotFound,
            DatabaseError::InvalidInput(msg) => WebError::BadRequest(msg),
            DatabaseError::Internal(msg) => WebError::Internal(msg),
        }
    }
}

impl vstd::std_specs::convert::FromSpecImpl<DatabaseError> for WebError {
    open spec fn obeys_from_spec() -> bool {
        true
    }

    open spec fn from_spec(err: DatabaseError) -> WebError {
        web_error_from_spec(err)
    }
}

pub struct CreateUserRequest {
    pub username: String,
    pub email: String,
}

pub struct CreateTaskRequest {
    pub title: String,
    pub description: Option<String>,
}

pub struct UpdateTaskRequest {
    pub title: Option<String>,
    pub description: Option<String>,
    pub completed: Option<bool>,
}

// ---------------------------------------------------------------------------
// The rate limiter.
// ---------------------------------------------------------------------------

/// The request times still inside the window that starts after
/// `window_start`.
pub open spec fn retained_spec(times: Seq<u64>, window_start: u64) -> Seq<u64>
    decreases times.len(),
{
    if times.len() == 0 {
        Seq::empty()
    } else if times.first() > window_start {
        seq![times.first()] + retained_spec(times.drop_first(), window_start)
    } else {
        retained_spec(times.drop_first(), window_start)
    }
}

pub struct RateLimiter {
    requests: StringTable<Vec<u64>>,
    max_requests: usize,
    window_seconds: u64,
}

impl RateLimiter {
    pub closed spec fn well_formed(&self) -> bool {
        self.requests.well_formed()
    }

    pub closed spec fn spec_max(&self) -> usize {
        self.max_requests
    }

    pub closed spec fn spec_window(&self) -> u64 {
        self.window_seconds
    }

    pub closed spec fn has_client(&self, ip: Seq<char>) -> bool {
        self.requests.contains_key(ip)
    }

    /// The recorded request times of a client.
    pub closed spec fn times_of(&self, ip: Seq<char>) -> Seq<u64> {
        if self.requests.contains_key(ip) {
            self.requests.value_of(ip)@
        } else {
            Seq::empty()
        }
    }

    pub fn new(max_requests: usize, window_seconds: u64) -> (r: Self)
        ensures
            r.well_formed(),
            r.spec_max() == max_requests,
            r.spec_window() == window_seconds,
            forall|ip: Seq<char>| !r.has_client(ip),
    {
        RateLimiter { requests: StringTable::new(), max_requests, window_seconds }
    }

    /// The decision for a request from `ip` arriving at wall-clock second
    /// `now`: allowed exactly when fewer than the maximum requests remain in
    /// the window, the stale times dropped either way and the new time
    /// recorded when allowed.
    pub fn check_rate_limit_at(&mut self, ip: &str, now: u64) -> (allowed: bool)
        requires
            old(self).well_formed(),
        ensures
            final(self).well_formed(),
            final(self).spec_max() == old(self).spec_max(),
            final(self).spec_window() == old(self).spec_window(),
            allowed == (retained_spec(
                old(self).times_of(ip@),
                sub_saturating(now, old(self).spec_window()),
            ).len() < old(self).spec_max()),
            final(self).times_of(ip@) == if allowed {
                retained_spec(
                    old(self).times_of(ip@),
                    sub_saturating(now, old(self).spec_window()),
                ).push(now)
            } else {
                retained_spec(old(self).times_of(ip@), sub_saturating(now, old(self).spec_window()))
            },
            forall|ip2: Seq<char>|
                ip2 != ip@ ==> final(self).times_of(ip2) == old(self).times_of(ip2),
    {
        let window_start: u64 = if now >= self.window_seconds {
            now - self.window_seconds
        } else {
            0
        };
        let ghost old_times = old(self).times_of(ip@);
        let existing: Vec<u64> = match self.requests.remove(ip) {
            Some(v) => v,
            None => Vec::new(),
        };
        proof {
            assert(existing@ == old_times);
        }
        let mut kept: Vec<u64> = Vec::new();
        let mut i: usize = 0;
        proof {
            assert(existing@.skip(0) =~= existing@);
            assert(kept@ + retained_spec(existing@.skip(0), window_start) =~= retained_spec(
                existing@,
                window_start,
            ));
        }
        while i < existing.len()
            invariant
                i <= existing@.len(),
                retained_spec(existing@, window_start) == kept@ + retained_spec(
                    existing@.skip(i as int),
                    window_start,
                ),
            decreases existing@.len() - i,
        {
            let ghost tail = existing@.skip(i as int);
            proof {
                assert(tail.first() == existing@[i as int]);
                assert(tail.drop_first() =~= existing@.skip(i + 1));
            }
            if existing[i] > window_start {
                kept.push(existing[i]);
                proof {
                    assert(kept@ =~= kept@.drop_last() + seq![existing@[i as int]]);
                    assert(kept@.drop_last() + (seq![existing@[i as int]] + retained_spec(
                        existing@.skip(i + 1),
                        window_start,
                    )) =~= kept@ + retained_spec(existing@.skip(i + 1), window_start));
                }
            }
            i = i + 1;
        }
        proof {
            assert(existing@.skip(existing@.len() as int) =~= Seq::<u64>::empty());
            assert(kept@ + Seq::<u64>::empty() =~= kept@);
            assert(kept@ == retained_spec(old_times, sub_saturating(now, old(self).spec_window())));
        }
        let allowed: bool;
        if kept.len() >= self.max_requests {
            allowed = false;
        } else {
            kept.push(now);
            allowed = true;
        }
        self.requests.insert(ip, kept);
        allowed
    }

    /// The decision for a request arriving now, by the wall clock.
    pub fn check_rate_limit(&mut self, ip: &str) -> (allowed: bool)
        requires
            old(self).well_formed(),
        ensures
            final(self).well_formed(),
            final(self).spec_max() == old(self).spec_max(),
            final(self).spec_window() == old(self).spec_window(),
            exists|now: u64|
                {
                    &&& allowed == (retained_spec(
                        old(self).times_of(ip@),
                        #[trigger] sub_saturating(now, old(self).spec_window()),
                    ).len() < old(self).spec_max())
                    &&& final(self).times_of(ip@) == if allowed {
                        retained_spec(
                            old(self).times_of(ip@),
                            sub_saturating(now, old(self).spec_window()),
                        ).push(now)
                    } else {
                        retained_spec(
                            old(self).times_of(ip@),
                            sub_saturating(now, old(self).spec_window()),
                        )
                    }
                },
            forall|ip2: Seq<char>|
                ip2 != ip@ ==> final(self).times_of(ip2) == old(self).times_of(ip2),
    {
        let now = current_timestamp();
        self.check_rate_limit_at(ip, now)
    }
}

/// Subtraction on the clock, stopping at zero.
pub open spec fn sub_saturating(a: u64, b: u64) -> u64 {
    if a >= b {
        (a - b) as u64
    } else {
        0
    }
}

} // verus!
