//! The capability-aware mutation fallback: moving a range of identifiers to
//! a destination mailbox uses the atomic move primitive when the session
//! advertises it, and otherwise the copy, flag, purge sequence, in that
//! order, aborting on the first failed step. A failure between copy and
//! purge can leave the messages present in both mailboxes: that is the
//! documented cost of the non-atomic fallback, not something this machine
//! hides.

use vstd::prelude::*;
use crate::error::Error;

verus! {

/// The next protocol command a move operation asks its caller to run.
pub enum MoveCall {
    /// Issue the atomic move of the range to the destination.
    Move(String, String),
    /// Copy the range to the destination.
    Copy(String, String),
    /// Mark the range with the given flag-update expression.
    Store(String, String),
    /// Purge flagged messages from the selected mailbox.
    Expunge,
    /// The operation is complete.
    Done,
    /// The operation failed; nothing further will be issued.
    Failed(Error),
}

/// Where a move operation stands.
pub enum MovePhase {
    /// Waiting for the atomic move to be answered.
    Moving,
    /// Waiting for the copy step to be answered.
    Copying,
    /// Waiting for the deletion-flag step to be answered.
    Flagging,
    /// Waiting for the purge step to be answered.
    Expunging,
    /// Terminal: the move completed.
    Finished,
    /// Terminal: a step failed and the rest were abandoned.
    Stopped,
}

/// A move of one range expression to a destination mailbox, as a state
/// machine: the caller runs each returned command against the session and
/// reports whether it succeeded.
pub struct MoveFallback {
    /// The range expression being moved.
    pub uid_set: String,
    /// The destination mailbox.
    pub dest: String,
    /// Where the operation stands.
    pub phase: MovePhase,
}

impl MoveFallback {
    /// Begin a move: the atomic primitive when the session advertises it,
    /// the copy step of the fallback otherwise.
    pub fn start(uid_set: String, dest: String, can_move: bool) -> (r: (MoveFallback, MoveCall))
        ensures
            r.0.uid_set@ == uid_set@,
            r.0.dest@ == dest@,
            can_move ==> r.0.phase is Moving && (r.1 matches MoveCall::Move(s, d) && s@ == uid_set@
                && d@ == dest@),
            !can_move ==> r.0.phase is Copying && (r.1 matches MoveCall::Copy(s, d) && s@
                == uid_set@ && d@ == dest@),
    {
        if can_move {
            let call = MoveCall::Move(uid_set.clone(), dest.clone());
            (MoveFallback { uid_set, dest, phase: MovePhase::Moving }, call)
        } else {
            let call = MoveCall::Copy(uid_set.clone(), dest.clone());
            (MoveFallback { uid_set, dest, phase: MovePhase::Copying }, call)
        }
    }

    /// Report the outcome of the last issued command and receive the next
    /// one: a successful copy is followed by the deletion flag, a
    /// successful flag by the purge; any failure stops the operation with
    /// the failed step's error, and a rejected atomic move is never
    /// retried through the fallback.
    pub fn step(&mut self, ok: bool, detail: String) -> (call: MoveCall)
        requires
            !(old(self).phase is Finished),
            !(old(self).phase is Stopped),
        ensures
            final(self).uid_set@ == old(self).uid_set@,
            final(self).dest@ == old(self).dest@,
            old(self).phase is Moving && ok ==> final(self).phase is Finished && call is Done,
            old(self).phase is Moving && !ok ==> final(self).phase is Stopped && (call matches
                MoveCall::Failed(e) && (e matches Error::MoveFailed(d) && d@ == detail@)),
            old(self).phase is Copying && ok ==> final(self).phase is Flagging && (call matches
                MoveCall::Store(s, q) && s@ == old(self).uid_set@ && q@
                == "+FLAGS (\\Deleted)"@),
            old(self).phase is Copying && !ok ==> final(self).phase is Stopped && (call matches
                MoveCall::Failed(e) && (e matches Error::CopyFailed(d) && d@ == detail@)),
            old(self).phase is Flagging && ok ==> final(self).phase is Expunging && call
                is Expunge,
            old(self).phase is Flagging && !ok ==> final(self).phase is Stopped && (call matches
                MoveCall::Failed(e) && (e matches Error::StoreFailed(d) && d@ == detail@)),
            old(self).phase is Expunging && ok ==> final(self).phase is Finished && call is Done,
            old(self).phase is Expunging && !ok ==> final(self).phase is Stopped && (call matches
                MoveCall::Failed(e) && (e matches Error::ExpungeFailed(d) && d@ == detail@)),
    {
        match self.phase {
            MovePhase::Moving => {
                if ok {
                    self.phase = MovePhase::Finished;
                    MoveCall::Done
                } else {
                    self.phase = MovePhase::Stopped;
                    MoveCall::Failed(Error::MoveFailed(detail))
                }
            },
            MovePhase::Copying => {
                if ok {
                    self.phase = MovePhase::Flagging;
                    MoveCall::Store(
                        self.uid_set.clone(),
                        String::from_str("+FLAGS (\\Deleted)"),
                    )
                } else {
                    self.phase = MovePhase::Stopped;
                    MoveCall::Failed(Error::CopyFailed(detail))
                }
            },
            MovePhase::Flagging => {
                if ok {
                    self.phase = MovePhase::Expunging;
                    MoveCall::Expunge
                } else {
                    self.phase = MovePhase::Stopped;
                    MoveCall::Failed(Error::StoreFailed(detail))
                }
            },
            MovePhase::Expunging => {
                if ok {
                    self.phase = MovePhase::Finished;
                    MoveCall::Done
                } else {
                    self.phase = MovePhase::Stopped;
                    MoveCall::Failed(Error::ExpungeFailed(detail))
                }
            },
            MovePhase::Finished => MoveCall::Done,
            MovePhase::Stopped => MoveCall::Done,
        }
    }
}

} // verus!
