//! The data handed from a master to its successor on hot upgrade.
//!
//! File descriptors travel as plain numbers: the successor re-adopts the
//! admin listener and each worker socket from the fd carried here. The
//! conversion to and from one JSON frame on the upgrade pipe happens
//! outside the library.

use vstd::prelude::*;
use crate::messages::{Order, RunState};
use crate::server::FanOut;
use crate::state::ConfigState;

verus! {

/// One worker as carried across an upgrade.
pub struct SerializedWorker {
    pub id: u32,
    pub pid: i32,
    pub fd: i32,
    pub token: Option<u32>,
    pub run_state: RunState,
    pub inflight: Vec<(String, Order)>,
}

/// Everything a successor master needs: the admin listener fd, the channel
/// buffer sizes from the configuration, the worker records with their
/// socket fds, the authoritative state, the id and token counters, and the
/// fan-out tracker.
pub struct UpgradeData {
    pub command: i32,
    pub buffer_size: usize,
    pub max_buffer_size: usize,
    pub workers: Vec<SerializedWorker>,
    pub state: ConfigState,
    pub next_id: u32,
    pub token_count: u32,
    pub inflight: Vec<FanOut>,
}

impl SerializedWorker {
    /// In-flight request ids occur at most once.
    pub open spec fn wf(&self) -> bool {
        forall|a: int, b: int| 0 <= a < b < self.inflight@.len()
            ==> self.inflight@[a].0@ != self.inflight@[b].0@
    }

    pub open spec fn owes(&self, id: Seq<char>) -> bool {
        exists|j: int| 0 <= j < self.inflight@.len() && self.inflight@[j].0@ == id
    }
}

impl UpgradeData {
    pub open spec fn has_entry(&self, id: Seq<char>) -> bool {
        exists|i: int| 0 <= i < self.inflight@.len() && self.inflight@[i].id@ == id
    }

    /// The consistency a successor relies on: a well-formed state, one token
    /// per worker, and a fan-out tracker that agrees with the workers'
    /// in-flight maps.
    pub open spec fn valid(&self) -> bool {
        &&& self.state.wf()
        &&& forall|j: int| 0 <= j < self.workers@.len() ==> (#[trigger] self.workers@[j]).token is Some
        &&& forall|i: int, j: int| 0 <= i < j < self.workers@.len()
            ==> self.workers@[i].token != self.workers@[j].token
        &&& forall|j: int| 0 <= j < self.workers@.len() ==> (#[trigger] self.workers@[j]).wf()
        &&& forall|i: int, j: int| 0 <= i < j < self.inflight@.len()
            ==> self.inflight@[i].id@ != self.inflight@[j].id@
        &&& forall|i: int| 0 <= i < self.inflight@.len() ==> (#[trigger] self.inflight@[i]).wf()
        &&& forall|i: int, j: int|
            0 <= i < self.inflight@.len() && 0 <= j < self.workers@.len()
                ==> (#[trigger] self.inflight@[i].has_token(self.workers@[j].token->0)
                    == self.workers@[j].owes(self.inflight@[i].id@))
        &&& forall|i: int, t: u32|
            0 <= i < self.inflight@.len() && #[trigger] self.inflight@[i].has_token(t)
                ==> exists|j: int| 0 <= j < self.workers@.len() && self.workers@[j].token == Some(t)
        &&& forall|j: int, k: int|
            0 <= j < self.workers@.len() && 0 <= k < self.workers@[j].inflight@.len()
                ==> self.has_entry((#[trigger] self.workers@[j].inflight@[k]).0@)
    }
}

} // verus!
