//! Turn-based matchmaking over a partitioned key-value store with
//! conditional writes and two-item transactional deletes.
//!
//! Players that finish a turn register an availability record; a worker
//! later pairs two available players for the same turn by atomically
//! consuming both records. The pairing protocol tolerates concurrent
//! workers: each player is consumed by at most one pair, and a worker
//! that loses a race either advances to the next candidate, drops its
//! request, or degrades to a fake simulation.

pub mod driver;
pub mod keys;
pub mod ops;
pub mod outcome;
pub mod skey;
pub mod store;

pub use driver::AsyncMatchmakingRequest;
pub use driver::attempt_matchmaking;
pub use driver::DriverAction;
pub use driver::MatchmakingDriver;
pub use driver::MatchmakingResult;
pub use ops::attempt_match;
pub use ops::delete_item;
pub use ops::end_turn;
pub use ops::list_matchmaking_entries;
pub use ops::register;

pub use store::InMemoryStore;
pub use store::PutOutcome;

pub use keys::matchmaking_pkey;
pub use outcome::CancellationReason;
pub use outcome::MatchResult;
pub use outcome::TransactionOutcome;
pub use outcome::interpret_transaction;
pub use keys::partition_key_attribute;
pub use keys::sort_key_attribute;
pub use skey::MatchmakingSkey;
pub use skey::get_random_string;
