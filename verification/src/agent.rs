//! The agent's main loop and the sizes and periods it runs by.

use vstd::prelude::*;

verus! {

/// How many broadcasts may wait to be sent.
pub const BROADCAST_CHANNEL_CAPACITY: usize = 10240;

/// How many fully buffered versions may wait to be promoted.
pub const APPLY_CHANNEL_CAPACITY: usize = 512;

/// How many datagrams may wait to be sent.
pub const TO_SEND_CHANNEL_CAPACITY: usize = 10240;

/// How many syncs a node serves at once; more are turned away.
pub const SYNC_CONCURRENCY: usize = 3;

/// How many broadcasts a node takes from peers at once, and how many more
/// may wait.
pub const PEER_BROADCAST_CONCURRENCY: usize = 512;

pub const PEER_BROADCAST_BUFFER: usize = 1024;

/// How many requests each route of the public API serves at once; schema
/// migrations are served fewer at a time.
pub const API_CONCURRENCY: usize = 128;

pub const MIGRATIONS_CONCURRENCY: usize = 4;

/// The period of compaction, in seconds.
pub const COMPACTION_INTERVAL_SECS: u64 = 300;

/// The period of the checkpoint of the write-ahead log, in seconds.
pub const DB_CLEANUP_INTERVAL_SECS: u64 = 900;

/// The period at which metrics are collected, in seconds.
pub const METRICS_INTERVAL_SECS: u64 = 10;

/// Runs the tasks that serve the public API, and counts them so that a
/// shutdown can wait for them.
#[derive(Clone, Copy, Debug, PartialEq, Eq, Structural)]
pub struct CountedExecutor;

/// What the main loop wakes up to. Where several are due at once, a batch
/// of messages is taken first, then the checkpoint, then the metrics, then
/// the shutdown signal.
#[derive(Debug, PartialEq, Eq)]
pub enum RunEvent<M> {
    /// A batch of messages came in.
    Gossip(Vec<M>),
    /// The stream of messages has ended.
    GossipClosed,
    /// It is time for a checkpoint of the write-ahead log.
    CleanupTick,
    /// It is time to collect metrics.
    MetricsTick,
    /// The shutdown signal was given.
    Tripped,
}

/// What the main loop does next.
#[derive(Debug, PartialEq, Eq)]
pub enum RunStep<M> {
    /// Handle the batch, at normal priority, in a task of its own.
    HandleGossip(Vec<M>),
    /// Make a checkpoint of the write-ahead log, in a task of its own.
    Cleanup,
    /// Collect metrics.
    CollectMetrics,
    /// Leave the loop.
    Stop,
}

/// Decides what the main loop does on an event.
pub fn on_run_event<M>(event: RunEvent<M>) -> (step: RunStep<M>)
    ensures
        step == match event {
            RunEvent::Gossip(batch) => RunStep::HandleGossip(batch),
            RunEvent::GossipClosed => RunStep::Stop,
            RunEvent::CleanupTick => RunStep::Cleanup,
            RunEvent::MetricsTick => RunStep::CollectMetrics,
            RunEvent::Tripped => RunStep::Stop,
        },
{
    match event {
        RunEvent::Gossip(batch) => RunStep::HandleGossip(batch),
        RunEvent::GossipClosed => RunStep::Stop,
        RunEvent::CleanupTick => RunStep::Cleanup,
        RunEvent::MetricsTick => RunStep::CollectMetrics,
        RunEvent::Tripped => RunStep::Stop,
    }
}

} // verus!
