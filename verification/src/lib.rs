//! Replication bookkeeping for a peer-to-peer, eventually consistent SQL store.
//!
//! Every node records, per originating actor, which versions it has applied,
//! which it holds only in part, and which are known to be empty. The modules
//! here hold that bookkeeping and every decision the agent takes on top of it:
//! what to do with an incoming changeset, when a buffered version is ready to
//! be promoted, which versions a compaction retires, what to ask a peer for.
//! Storage and network work is left to the caller, which hands in plain values
//! and carries out the plans it gets back.
//!
//! - [`known`], [`seqs`]: what is known of one version, and the sets of
//!   sequence numbers of buffered versions.
//! - [`booked`], [`bookie`]: the bookkeeping of one actor and of all actors.
//! - [`changes`], [`ingest`], [`promote`]: changesets, taking them in, and
//!   promoting versions that arrived in fragments.
//! - [`rows`], [`restore`], [`compact`]: the rows that persist the
//!   bookkeeping, rebuilding it from them, and compacting it.
//! - [`payload`], [`gossip`], [`members`], [`bootstrap`]: datagrams,
//!   application messages, the table of members, and finding nodes to
//!   announce to.
//! - [`sync`]: anti-entropy with a peer.
//! - [`agent`]: the main loop and its sizes and periods.
//! - [`random`]: choosing at random.
//! - [`laws`]: what holds whatever the order and number of deliveries.

pub mod agent;
pub mod booked;
pub mod bookie;
pub mod bootstrap;
pub mod changes;
pub mod compact;
pub mod gossip;
pub mod ingest;
pub mod known;
pub mod laws;
pub mod members;
pub mod payload;
pub mod promote;
pub mod random;
pub mod restore;
pub mod rows;
pub mod seqs;
pub mod sync;
