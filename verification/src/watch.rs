//! Change-data-capture watch: the resolved watermark and the commit events.
//!
//! The watermark is the highest commit that is fully durable and applied. It
//! is kept apart from the engine's commit counter, which advances before a
//! commit is durable: a consumer that waits for the watermark before it reads
//! never observes a half-committed prefix. Events are a lossy, ordered feed;
//! the watermark is the anchor that a lagging consumer goes back to.

use crate::mutation::{mutation_models, Mutation, MutationModel};
use vstd::prelude::*;

verus! {

/// One durable commit, published after it is on disk and applied.
#[derive(Debug)]
pub struct WatchEvent {
    /// Transaction that committed.
    pub tx_id: u64,
    /// Commit-order sequence number (the `begin_ts` of its versions).
    pub commit_ts: u64,
    /// The mutations carried by this commit.
    pub mutations: Vec<Mutation>,
}

/// What an event says.
#[verifier::ext_equal]
pub struct EventModel {
    /// Transaction that committed.
    pub tx_id: u64,
    /// Commit-order sequence number.
    pub commit_ts: u64,
    /// The mutations carried by this commit.
    pub mutations: Seq<MutationModel>,
}

impl View for WatchEvent {
    type V = EventModel;

    open spec fn view(&self) -> EventModel {
        EventModel {
            tx_id: self.tx_id,
            commit_ts: self.commit_ts,
            mutations: mutation_models(self.mutations@),
        }
    }
}

/// The later of two commits.
pub open spec fn later(a: u64, b: u64) -> u64 {
    if a >= b {
        a
    } else {
        b
    }
}

/// Tracks the resolved watermark and decides what is published.
#[derive(Debug)]
pub struct Watcher {
    resolved: u64,
    subscribers: usize,
}

impl Watcher {
    /// Highest fully durable and applied commit.
    pub closed spec fn resolved(&self) -> u64 {
        self.resolved
    }

    /// How many subscribers are attached.
    pub closed spec fn listeners(&self) -> usize {
        self.subscribers
    }

    /// Creates a watcher whose resolved watermark starts at
    /// `initial_resolved`, with no subscriber.
    pub fn new(initial_resolved: u64) -> (r: Self)
        ensures
            r.resolved() == initial_resolved,
            r.listeners() == 0,
    {
        Watcher { resolved: initial_resolved, subscribers: 0 }
    }

    /// The most recent durably committed and applied commit.
    pub fn resolved_ts(&self) -> (r: u64)
        ensures
            r == self.resolved(),
    {
        self.resolved
    }

    /// Tells the watcher how many subscribers are attached.
    pub fn set_subscribers(&mut self, subscribers: usize)
        ensures
            final(self).listeners() == subscribers,
            final(self).resolved() == old(self).resolved(),
    {
        self.subscribers = subscribers;
    }

    /// Whether any subscriber is attached; without one, a commit is published
    /// without its mutations.
    pub fn has_subscribers(&self) -> (r: bool)
        ensures
            r == (self.listeners() > 0),
    {
        self.subscribers > 0
    }

    /// One look of a waiter for `ts`: the watermark once it has reached `ts`,
    /// and until then nothing, so that the waiter goes on waiting.
    pub fn wait_for_resolved(&self, ts: u64) -> (r: Option<u64>)
        ensures
            r == (if self.resolved() >= ts {
                Some(self.resolved())
            } else {
                None
            }),
    {
        if self.resolved >= ts {
            Some(self.resolved)
        } else {
            None
        }
    }

    /// Publishes a commit that is durable and applied. The watermark never
    /// goes back, so commits may be published out of order. Returns the event
    /// for the feed where a subscriber is attached.
    pub fn publish(&mut self, tx_id: u64, commit_ts: u64, mutations: Vec<Mutation>) -> (r: Option<
        WatchEvent,
    >)
        ensures
            final(self).resolved() == later(old(self).resolved(), commit_ts),
            final(self).listeners() == old(self).listeners(),
            r is Some <==> old(self).listeners() > 0,
            r matches Some(event) ==> event@ == (EventModel {
                tx_id,
                commit_ts,
                mutations: mutation_models(mutations@),
            }),
    {
        self.publish_empty(tx_id, commit_ts);
        if self.subscribers > 0 {
            Some(WatchEvent { tx_id, commit_ts, mutations })
        } else {
            None
        }
    }

    /// Publishes a commit without its mutations: only the watermark moves.
    pub fn publish_empty(&mut self, _tx_id: u64, commit_ts: u64)
        ensures
            final(self).resolved() == later(old(self).resolved(), commit_ts),
            final(self).listeners() == old(self).listeners(),
    {
        if commit_ts > self.resolved {
            self.resolved = commit_ts;
        }
    }
}

impl Clone for Watcher {
    fn clone(&self) -> (r: Self)
        ensures
            r.resolved() == self.resolved(),
            r.listeners() == self.listeners(),
    {
        Watcher { resolved: self.resolved, subscribers: self.subscribers }
    }
}

/// The watermark after a series of commits.
pub open spec fn resolved_after(start: u64, commits: Seq<u64>) -> u64
    decreases commits.len(),
{
    if commits.len() == 0 {
        start
    } else {
        later(resolved_after(start, commits.drop_last()), commits.last())
    }
}

/// In whatever order commits are published, the watermark never goes back and
/// ends at or above every one of them, at one of them or where it started.
pub proof fn law_resolved_is_monotonic(start: u64, commits: Seq<u64>)
    ensures
        resolved_after(start, commits) >= start,
        forall|i: int| 0 <= i < commits.len() ==> resolved_after(start, commits) >= commits[i],
        resolved_after(start, commits) == start || commits.contains(resolved_after(start, commits)),
    decreases commits.len(),
{
    if commits.len() > 0 {
        let init = commits.drop_last();
        law_resolved_is_monotonic(start, init);
        assert forall|i: int| 0 <= i < commits.len() implies resolved_after(start, commits)
            >= commits[i] by {
            if i < init.len() {
                assert(init[i] == commits[i]);
            }
        }
        let end = resolved_after(start, commits);
        if end != start && end == resolved_after(start, init) {
            let i = choose|i: int| 0 <= i < init.len() && init[i] == end;
            assert(commits[i] == end);
        } else if end != start {
            assert(commits[commits.len() - 1] == end);
        }
    }
}

} // verus!
