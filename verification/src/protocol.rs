//! The steps by which the index file is replaced through an atomic writer.
//!
//! The writer itself (an exclusive lock, buffered writes, an atomic commit)
//! lives outside this library. The library decides: told what the writer's
//! last answer was, it says what to ask of the writer next. Whoever drives the
//! writer starts with `WriterEvent::Begin`, carries out each action, reports
//! the outcome as the next event, and stops at `WriterAction::Finish`.
//! Abandoning the writer before a commit discards what was written.

use vstd::prelude::*;
use crate::error::IndexError;

verus! {

/// Where a replacement of the index file stands.
#[derive(Debug, Clone, Copy, PartialEq, Eq, Structural)]
pub enum WritePhase {
    /// No replacement is under way.
    Idle,
    /// The lock was asked for.
    Acquiring,
    /// The lock is held and the content was handed to the writer.
    Writing,
    /// The content is written and the commit was asked for.
    Committing,
}

/// What the writer answered to the last action.
#[derive(Debug, Clone, Copy, PartialEq, Eq, Structural)]
pub enum WriterEvent {
    /// Nothing was asked yet: a replacement is to start.
    Begin,
    /// The lock was taken.
    Acquired,
    /// Another writer holds the lock.
    AlreadyHeld,
    /// The bytes were written.
    Written,
    /// The new content is in place and the lock released.
    Committed,
    /// The writer failed.
    Failed,
}

/// What to ask of the writer next, without the bytes.
pub enum Planned {
    Acquire,
    Write,
    Commit,
    Finish(Result<(), IndexError>),
}

/// What to ask of the writer next.
#[derive(Debug)]
pub enum WriterAction {
    /// Take the exclusive lock, without waiting.
    Acquire,
    /// Write these bytes.
    Write(Vec<u8>),
    /// Put what was written in place of the old file and release the lock.
    Commit,
    /// Stop. On an error, what was written is to be discarded.
    Finish(Result<(), IndexError>),
}

impl WriterAction {
    /// The action without its bytes.
    pub open spec fn planned(self) -> Planned {
        match self {
            WriterAction::Acquire => Planned::Acquire,
            WriterAction::Write(_) => Planned::Write,
            WriterAction::Commit => Planned::Commit,
            WriterAction::Finish(outcome) => Planned::Finish(outcome),
        }
    }
}

/// The phase that follows `phase` on `event`, and what is asked of the writer.
///
/// A replacement starts by asking for the lock. Only when the lock is taken is
/// anything written, and only when the writing succeeded is the commit asked
/// for. A lock that is held ends the replacement with `LockHeld`; any other
/// answer that does not fit the phase ends it with `IoFailure`.
pub open spec fn next_step(phase: WritePhase, event: WriterEvent) -> (WritePhase, Planned) {
    match (phase, event) {
        (WritePhase::Idle, WriterEvent::Begin) => (WritePhase::Acquiring, Planned::Acquire),
        (WritePhase::Acquiring, WriterEvent::Acquired) => (WritePhase::Writing, Planned::Write),
        (WritePhase::Acquiring, WriterEvent::AlreadyHeld) => (
            WritePhase::Idle,
            Planned::Finish(Err(IndexError::LockHeld)),
        ),
        (WritePhase::Writing, WriterEvent::Written) => (WritePhase::Committing, Planned::Commit),
        (WritePhase::Committing, WriterEvent::Committed) => (
            WritePhase::Idle,
            Planned::Finish(Ok(())),
        ),
        _ => (WritePhase::Idle, Planned::Finish(Err(IndexError::IoFailure))),
    }
}

/// Nothing is written without the lock, nothing is committed that was not
/// written, and success is reported only after a commit.
pub proof fn lemma_protocol_order(phase: WritePhase, event: WriterEvent)
    ensures
        next_step(phase, event).1 == Planned::Write ==> phase == WritePhase::Acquiring && event
            == WriterEvent::Acquired,
        next_step(phase, event).1 == Planned::Commit ==> phase == WritePhase::Writing && event
            == WriterEvent::Written,
        next_step(phase, event).1 == Planned::Finish(Ok(())) ==> phase == WritePhase::Committing
            && event == WriterEvent::Committed,
{
}

/// A lock that is already held ends the replacement at once: the next step
/// reports `LockHeld`, and the phase is idle again, from where nothing but a
/// new request for the lock can follow.
pub proof fn lemma_lock_held_writes_nothing(later: WriterEvent)
    ensures
        next_step(WritePhase::Acquiring, WriterEvent::AlreadyHeld) == (
            WritePhase::Idle,
            Planned::Finish(Err(IndexError::LockHeld)),
        ),
        next_step(WritePhase::Idle, later).1 != Planned::Write,
        next_step(WritePhase::Idle, later).1 != Planned::Commit,
{
}

} // verus!
