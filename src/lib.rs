//! Tallies of validator attestations of Ethereum events.
//!
//! Attestations of one event arrive as updates (`EthMsgUpdate`), in any
//! order and possibly repeated, and are folded into a single record
//! (`EthMsg`) that counts each validator's voting power once and turns
//! `seen` on, for good, once the power reaches a quorum.
//!
//! - `voting_power`: fixed-point voting power and quorum thresholds.
//! - `tally`: weight tables and the summed power of a set of validators.
//! - `eth_msg`: the update and record types and the merge of one into the other.
//! - `laws`: what holds across merges (idempotence, order independence,
//!   counting once, monotonicity, the threshold latch).

pub mod eth_msg;
pub mod laws;
pub mod tally;
pub mod voting_power;
