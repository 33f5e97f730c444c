//! Ranked-choice (instant-runoff) vote tallying over a prefix trie of ballots.
//!
//! Ballots list candidate identifiers in descending order of preference and may
//! end in a special marker (withhold or abstain). The tally engine repeatedly
//! eliminates the weakest candidates under a configurable strategy and
//! transfers their supporters' next preferences until some candidate holds a
//! strict majority of the effective votes, or no progress can be made.

pub mod counts;
pub mod engine;
pub mod graph;
pub mod pairs;
pub mod round;
pub mod trie;
pub mod vote;

pub use engine::EliminationStrategies;
pub use engine::RankedChoiceVoteTrie;
pub use trie::TrieNode;
pub use vote::RankedVote;
pub use vote::SpecialVotes;
pub use vote::ToVotes;
pub use vote::VoteErrors;
pub use vote::VoteStructIterator;
pub use vote::VoteValues;
