//! Interpretation of a two-item transactional delete: the four-valued
//! outcome that drives the matchmaking protocol.

use crate::skey::MatchmakingSkey;
use vstd::prelude::*;

verus! {

/// Why one item of a canceled transaction was rejected. The store
/// attaches a diagnostic message exactly when that item's condition
/// check failed; any other abort reason carries none.
#[derive(Debug, PartialEq)]
pub struct CancellationReason {
    pub message: Option<String>,
}

/// What the store reported for a two-item transactional write.
#[derive(Debug, PartialEq)]
pub enum TransactionOutcome {
    /// Every item's condition held and all writes were applied.
    Committed,
    /// The whole transaction was aborted; `reasons` holds one entry per
    /// item, in the order the items were submitted.
    Canceled { detail: String, reasons: Vec<CancellationReason> },
    /// The request never executed (such as a missing table or a
    /// transport fault); the message names the store's error class.
    ServiceFailure(String),
}

/// Result of one pair attempt.
#[derive(Debug, PartialEq)]
pub enum MatchResult {
    /// The attempt failed for a reason other than a lost race; the
    /// message carries the store's diagnostic.
    UnrecoverableError(String),
    /// The first player's record is gone: the requester was already
    /// paired by another worker.
    P1ConditionError,
    /// Only the second player's record is gone: this candidate was taken
    /// by another worker.
    P2ConditionError,
    /// Both records were consumed atomically.
    Matched(MatchmakingSkey, MatchmakingSkey),
}

/// True when the reason at position `i` reports a failed condition
/// check, which the store signals by attaching a message.
pub open spec fn condition_failed(reasons: Seq<CancellationReason>, i: int) -> bool {
    0 <= i < reasons.len() && reasons[i].message is Some
}

/// Maps a transaction outcome to the pair-attempt result. A failed
/// condition on the first item trumps one on the second: "my own record
/// is gone" ends the whole request, not just this candidate.
pub fn interpret_transaction(
    outcome: TransactionOutcome,
    player1: MatchmakingSkey,
    player2: MatchmakingSkey,
) -> (r: MatchResult)
    ensures
        (match outcome {
            TransactionOutcome::Committed => r == MatchResult::Matched(player1, player2),
            TransactionOutcome::Canceled { detail, reasons } => {
                if condition_failed(reasons@, 0) {
                    r == MatchResult::P1ConditionError
                } else if condition_failed(reasons@, 1) {
                    r == MatchResult::P2ConditionError
                } else {
                    r == MatchResult::UnrecoverableError(detail)
                }
            },
            TransactionOutcome::ServiceFailure(message) => r == MatchResult::UnrecoverableError(
                message,
            ),
        }),
{
    match outcome {
        TransactionOutcome::Committed => MatchResult::Matched(player1, player2),
        TransactionOutcome::Canceled { detail, reasons } => {
            let reason1_failed = reasons.len() >= 1 && reasons[0].message.is_some();
            let reason2_failed = reasons.len() >= 2 && reasons[1].message.is_some();
            if reason1_failed {
                MatchResult::P1ConditionError
            } else if reason2_failed {
                MatchResult::P2ConditionError
            } else {
                MatchResult::UnrecoverableError(detail)
            }
        },
        TransactionOutcome::ServiceFailure(message) => MatchResult::UnrecoverableError(message),
    }
}

} // verus!
