//! The decisions behind locking a database file: which lock is held, what a
//! request for a lock has to do about the one held, and whether a failed
//! attempt to lock without blocking only means that the lock is taken.
//!
//! Shared locks allow many readers; an exclusive lock allows one writer. A
//! process holds at most one of them, so changing kinds releases the held
//! lock first.

use vstd::prelude::*;

verus! {

/// Lock types for database file access.
#[derive(Debug, Clone, Copy, PartialEq, Eq, Structural)]
pub enum LockType {
    /// No lock held.
    Unlocked,
    /// Shared lock: allows multiple readers.
    Shared,
    /// Exclusive lock: only one writer.
    Exclusive,
}

/// What a request for a lock has to do.
#[derive(Debug, Clone, Copy, PartialEq, Eq, Structural)]
pub enum LockStep {
    /// The requested lock is already held.
    Keep,
    /// Nothing is held: take the requested lock.
    Acquire,
    /// Another kind of lock is held: release it, then take the requested one.
    ReleaseThenAcquire,
}

/// What taking lock `want` requires when `current` is held.
pub open spec fn spec_plan_lock(current: LockType, want: LockType) -> LockStep {
    if current == want {
        LockStep::Keep
    } else if current == LockType::Unlocked {
        LockStep::Acquire
    } else {
        LockStep::ReleaseThenAcquire
    }
}

/// What taking lock `want` (shared or exclusive) requires when `current`
/// is held.
pub fn plan_lock(current: LockType, want: LockType) -> (step: LockStep)
    requires
        want != LockType::Unlocked,
    ensures
        step == spec_plan_lock(current, want),
{
    if current == want {
        LockStep::Keep
    } else if current == LockType::Unlocked {
        LockStep::Acquire
    } else {
        LockStep::ReleaseThenAcquire
    }
}

/// Moving to lock `target` by releasing whatever is held first, unless
/// `target` is held already (upgrading to exclusive, downgrading to
/// shared).
pub fn plan_switch(current: LockType, target: LockType) -> (step: LockStep)
    requires
        target != LockType::Unlocked,
    ensures
        step == (if current == target {
            LockStep::Keep
        } else {
            LockStep::ReleaseThenAcquire
        }),
{
    if current == target {
        LockStep::Keep
    } else {
        LockStep::ReleaseThenAcquire
    }
}

/// The lock held after a step taken for `want` succeeds.
pub fn held_after(current: LockType, step: LockStep, want: LockType) -> (held: LockType)
    ensures
        step == LockStep::Keep ==> held == current,
        step != LockStep::Keep ==> held == want,
{
    match step {
        LockStep::Keep => current,
        _ => want,
    }
}

/// Whether any lock is held.
pub fn is_locked(current: LockType) -> (r: bool)
    ensures
        r == (current != LockType::Unlocked),
{
    current != LockType::Unlocked
}

/// The error numbers `libc::EWOULDBLOCK` and `libc::EAGAIN` of the platform
/// the crate is built for. Nothing is claimed of their values.
#[verifier::external_body]
fn would_block_codes() -> (codes: (i32, i32)) {
    (libc::EWOULDBLOCK, libc::EAGAIN)
}

/// Whether the OS error `os_error` is one of the two "would block" codes.
pub fn matches_would_block(os_error: Option<i32>, codes: (i32, i32)) -> (r: bool)
    ensures
        r == (os_error == Some(codes.0) || os_error == Some(codes.1)),
{
    match os_error {
        Some(e) => e == codes.0 || e == codes.1,
        None => false,
    }
}

/// Whether a failed attempt to lock without blocking failed only because
/// the lock is taken: its OS error is `EWOULDBLOCK` or `EAGAIN`. An error
/// without an OS error number never is. Those two numbers differ from one
/// platform to another, so the contract does not say which numbers count;
/// `matches_would_block` states the answer for any pair of codes.
pub fn is_would_block(os_error: Option<i32>) -> (r: bool)
    ensures
        r ==> os_error is Some,
{
    let codes = would_block_codes();
    matches_would_block(os_error, codes)
}

/// Asking for the lock already held changes nothing; asking for another
/// lock ends with that lock held; and whatever was held before, a request
/// never leaves two kinds held, since another kind is released first.
pub proof fn lemma_lock_request_outcome(current: LockType, want: LockType)
    requires
        want != LockType::Unlocked,
    ensures
        spec_plan_lock(current, want) == LockStep::Keep <==> current == want,
        spec_plan_lock(current, want) == LockStep::Acquire <==> current == LockType::Unlocked,
        spec_plan_lock(current, want) == LockStep::ReleaseThenAcquire <==> (current != want && current
            != LockType::Unlocked),
{
}

} // verus!
