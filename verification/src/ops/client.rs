//! The decisions of the OPS client around each request: whether the last
//! throttling state lets a request go, what a response's status means, and
//! whether a failed attempt is tried again. The client performs the
//! requests and the waiting.
use vstd::prelude::*;
use crate::ops::error::OpsError;
use crate::ops::retry::{should_retry, MAX_ATTEMPTS};
use crate::ops::throttle::{delay_secs, entries_view, seconds, strictest, Action, ThrottleControl};
use std::time::Duration;

verus! {

/// At most this many requests are in flight at once.
pub const MAX_CONCURRENT_REQUESTS: usize = 2;

/// The REST services base. The token endpoint is a sibling, not nested
/// below it.
pub const OPS_REST_BASE_URL: &'static str = "https://ops.epo.org/3.2/rest-services";

/// The OAuth2 token endpoint.
pub const OPS_AUTH_URL: &'static str = "https://ops.epo.org/3.2/auth/accesstoken";

/// A token is renewed this many seconds before its stated expiry, so that
/// a request started just before does not race it.
pub const EXPIRY_SAFETY_MARGIN_SECS: u64 = 60;

/// How long, in seconds, a new token is used: its stated lifetime less the
/// safety margin, and none when it is shorter than the margin.
pub fn token_lifetime_secs(expires_in: u64) -> (r: u64)
    ensures
        r == if expires_in > EXPIRY_SAFETY_MARGIN_SECS {
            (expires_in - EXPIRY_SAFETY_MARGIN_SECS) as u64
        } else {
            0
        },
{
    expires_in.saturating_sub(EXPIRY_SAFETY_MARGIN_SECS)
}

/// What the last observed throttling state says of the next request.
#[derive(Debug)]
pub enum Clearance {
    Go,
    /// Go after this pause.
    WaitThenGo(Duration),
    /// The service is blocked (black): stop and report.
    Stop,
}

/// Before a request: stop on black, pause on yellow or red, go otherwise
/// (and go when no state has been seen yet).
pub fn clearance(last: &Option<ThrottleControl>) -> (r: Clearance)
    ensures
        match last {
            None => r is Go,
            Some(tc) => {
                let a = strictest(entries_view(tc.categories@));
                if a == Action::Stop {
                    r is Stop
                } else {
                    match delay_secs(a) {
                        Some(s) => r == Clearance::WaitThenGo(seconds(s)),
                        None => r is Go,
                    }
                }
            },
        },
{
    match last {
        None => Clearance::Go,
        Some(tc) => match tc.strictest_action() {
            Action::Stop => Clearance::Stop,
            _ => match tc.recommended_delay() {
                Some(d) => Clearance::WaitThenGo(d),
                None => Clearance::Go,
            },
        },
    }
}

/// The error a stop leaves the caller with.
pub fn blocked() -> (r: OpsError)
    ensures
        r matches OpsError::Blocked(s) && s@ == "black"@,
{
    OpsError::Blocked("black".to_owned())
}

/// What a response's HTTP status means.
#[derive(Debug, Clone, Copy, PartialEq, Eq)]
pub enum Outcome {
    /// 2xx: the body is the answer.
    Success,
    /// 401: the access token is invalid; drop it, then report the error.
    Unauthorized,
    /// Anything else: report the error the body describes.
    Failure,
}

pub fn outcome(status: u16) -> (r: Outcome)
    ensures
        r == if status == 401 {
            Outcome::Unauthorized
        } else if 200 <= status < 300 {
            Outcome::Success
        } else {
            Outcome::Failure
        },
{
    if status == 401 {
        Outcome::Unauthorized
    } else if 200 <= status && status < 300 {
        Outcome::Success
    } else {
        Outcome::Failure
    }
}

/// The HTTP status an error carries: an API error's, none for the others
/// (network errors and the like).
pub open spec fn error_status(e: OpsError) -> Option<u16> {
    match e {
        OpsError::Api { status, .. } => Some(status),
        _ => None,
    }
}

pub fn status_of(e: &OpsError) -> (r: Option<u16>)
    ensures
        r == error_status(*e),
{
    match e {
        OpsError::Api { status, .. } => Some(*status),
        _ => None,
    }
}

/// After failed attempt `attempt` (counted from 0): whether to try again.
/// 5xx and network errors are retried, and so is a 401 (the token was
/// dropped, so the next attempt fetches a fresh one), until
/// `MAX_ATTEMPTS` attempts have been made; anything else ends the request
/// at once.
pub fn try_again(e: &OpsError, attempt: u32) -> (r: bool)
    ensures
        r == (match error_status(*e) {
            None => true,
            Some(s) => (500 <= s < 600) || s == 401,
        } && attempt + 1 < MAX_ATTEMPTS),
{
    let status = status_of(e);
    let unauthorized = match status {
        Some(s) => s == 401,
        None => false,
    };
    (should_retry(status) || unauthorized) && attempt < MAX_ATTEMPTS - 1
}

} // verus!
