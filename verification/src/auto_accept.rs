//! Accepting invites on a local user's behalf.
//!
//! Where the server is configured to, an invite to a local user is queued and
//! accepted by joining, retried a few times with a doubling delay while the
//! invite stays acceptable.

use std::time::Duration;
use vstd::arithmetic::power2::{lemma_pow2_adds, pow2};
use vstd::bits::lemma_u64_shl_is_mul;
use vstd::prelude::*;

verus! {

/// How many times an invite is tried before it is given up.
pub const ATTEMPTS: u32 = 5;

/// The server's settings for accepting invites automatically.
#[derive(Debug, Clone, Copy, PartialEq, Eq, Structural)]
pub struct AutoAcceptConfig {
    /// Invites to local users are accepted at all.
    pub auto_accept_invites: bool,
    /// Only invites to direct chats are.
    pub direct_only: bool,
    /// Only invites sent by local users are.
    pub local_only: bool,
}

/// Whether an invite is queued for acceptance: the feature is on, the invite
/// is direct where only direct ones are taken, the invitee is local, and the
/// sender is local where only local senders are trusted.
pub fn accepts_invite(config: AutoAcceptConfig, is_direct: bool, user_is_local: bool, sender_is_local: bool) -> (r: bool)
    ensures
        r == (config.auto_accept_invites && (is_direct || !config.direct_only) && user_is_local
            && (!config.local_only || sender_is_local)),
{
    config.auto_accept_invites && (is_direct || !config.direct_only) && user_is_local
        && (!config.local_only || sender_is_local)
}

/// Whether an invite is still worth acting on: the user is still invited and
/// active, and does not ignore the sender.
pub fn acceptable(invited: bool, active: bool, ignored: bool) -> (r: bool)
    ensures
        r == (invited && active && !ignored),
{
    invited && active && !ignored
}

/// The wait before attempt `attempt`, in seconds: none before the first, then
/// one second, doubling with each further attempt.
pub open spec fn retry_delay_secs(attempt: nat) -> nat {
    if attempt == 0 {
        0
    } else {
        pow2((attempt - 1) as nat)
    }
}

/// The `Duration` that `std::time::Duration::from_secs` makes of `secs`.
pub uninterp spec fn duration_of_secs(secs: u64) -> Duration;

/// `std::time::Duration::from_secs`.
///
/// Claimed: the result is the name `duration_of_secs` applied to the count of
/// seconds; what a `Duration` holds is not described here.
#[verifier::external_body]
fn duration_from_secs(secs: u64) -> (d: Duration)
    ensures
        d == duration_of_secs(secs),
{
    Duration::from_secs(secs)
}

/// The wait before attempt `attempt`, as a count of seconds.
pub fn retry_delay_seconds(attempt: u32) -> (r: u64)
    requires
        attempt <= 64,
    ensures
        r == retry_delay_secs(attempt as nat),
{
    if attempt == 0 {
        0
    } else {
        let retry: u64 = (attempt - 1) as u64;
        proof {
            vstd::bits::lemma_u64_pow2_no_overflow(retry as nat);
            lemma_u64_shl_is_mul(1, retry);
        }
        1u64 << retry
    }
}

/// The wait before attempt `attempt`.
pub fn retry_delay(attempt: u32) -> (r: Duration)
    requires
        attempt <= 64,
    ensures
        r == duration_of_secs(retry_delay_secs(attempt as nat) as u64),
{
    duration_from_secs(retry_delay_seconds(attempt))
}

/// Each wait past the first retry is twice the one before it.
pub proof fn lemma_retries_double(attempt: nat)
    requires
        attempt >= 1,
    ensures
        retry_delay_secs(attempt + 1) == 2 * retry_delay_secs(attempt),
        retry_delay_secs(0) == 0,
        retry_delay_secs(1) == 1,
{
    lemma_pow2_adds((attempt - 1) as nat, 1);
    vstd::arithmetic::power2::lemma2_to64();
    assert(((attempt - 1) as nat) + 1 == attempt);
}

/// What one attempt at accepting an invite came to.
#[derive(Debug, Clone, Copy, PartialEq, Eq, Structural)]
pub enum AttemptOutcome {
    /// The invite was no longer acceptable when its turn came.
    NotAcceptable,
    /// The join went through.
    Joined,
    /// The join failed.
    Failed,
}

/// What follows an attempt.
#[derive(Debug, Clone, Copy, PartialEq, Eq, Structural)]
pub enum AcceptDecision {
    /// Stop, with whether the user joined.
    Stop(bool),
    /// Wait, then make this attempt.
    Retry(u32),
}

/// The decision after attempt `attempt` (counted from zero): an invite that is
/// no longer acceptable or that was joined ends the run, and a failed join is
/// retried until `ATTEMPTS` attempts have been made.
pub fn after_attempt(attempt: u32, outcome: AttemptOutcome) -> (r: AcceptDecision)
    requires
        attempt < ATTEMPTS,
    ensures
        r == match outcome {
            AttemptOutcome::NotAcceptable => AcceptDecision::Stop(false),
            AttemptOutcome::Joined => AcceptDecision::Stop(true),
            AttemptOutcome::Failed => if attempt + 1 < ATTEMPTS {
                AcceptDecision::Retry((attempt + 1) as u32)
            } else {
                AcceptDecision::Stop(false)
            },
        },
        r matches AcceptDecision::Retry(next) ==> next < ATTEMPTS && next == attempt + 1,
{
    match outcome {
        AttemptOutcome::NotAcceptable => AcceptDecision::Stop(false),
        AttemptOutcome::Joined => AcceptDecision::Stop(true),
        AttemptOutcome::Failed => {
            if attempt + 1 < ATTEMPTS {
                AcceptDecision::Retry(attempt + 1)
            } else {
                AcceptDecision::Stop(false)
            }
        },
    }
}

} // verus!
