//! The forwarding table of a peer-to-peer VPN.
//!
//! Peers claim address ranges. The table finds the peer that an address belongs
//! to: the one whose claim has the longest prefix of the address. It remembers
//! what it found for a while, and lets claims and remembered addresses time out.
//!
//! - [`types`]: addresses, ranges, peers and the clock.
//! - [`trie`]: the binary trie that finds the longest prefix.
//! - [`cache`]: the hash map that remembers addresses.
//! - [`state`]: what a table holds, and what each operation makes of it.
//! - [`table`]: the table.
//! - [`report`]: the lines of a printed table.
//! - [`laws`]: what holds of the table as a whole.
//! - [`history`]: what holds of it after any series of calls.
//! - [`meaning`]: what each operation comes to.
pub mod cache;
pub mod history;
pub mod laws;
pub mod meaning;
pub mod report;
pub mod state;
pub mod table;
pub mod trie;
pub mod types;
