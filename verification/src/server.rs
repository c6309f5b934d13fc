//! The command server: admin sessions, worker registry and fan-out tracker.
//!
//! The server owns the authoritative `ConfigState`, a slab of admin-client
//! sessions, the worker records, and the fan-out tracker that maps each
//! in-flight admin request id to the workers still owing a reply. All
//! outgoing traffic is modelled as per-peer outboxes of plain values; the
//! event loop outside the library drains them onto the sockets and feeds
//! decoded frames back in.
//!
//! The well-formedness predicate `wf` carries the central invariant: for
//! every tracked request id, the set of tokens in its fan-out entry equals
//! the set of workers whose in-flight map holds that id. Every operation
//! requires and preserves it.

use vstd::prelude::*;
use crate::messages::{Order, OrderModel, OrderMessage, OrderMessageAnswer, ConfigMessageStatus,
    RunState, WorkerInfo, fmt_id, dec_str, lemma_prefixed_id_injective};
use crate::state::{ConfigState, StateModel, apply, apply_seq, lemma_apply_seq_push, order_models};
use crate::upgrade::{UpgradeData, SerializedWorker};

verus! {

/// The hard cap on concurrent admin sessions; later connections are refused.
pub const MAX_CLIENTS: usize = 128;

/// Index of an admin client in the session slab.
#[derive(Clone, Copy, PartialEq, Eq, Structural, Debug)]
pub struct FrontToken(pub usize);

/// One admin command as decoded from a client frame.
pub enum ConfigCommand {
    SaveState(String),
    LoadState(String),
    DumpState,
    ListWorkers,
    LaunchWorker(String),
    UpgradeMaster,
    Metrics,
    ProxyConfiguration(Order),
}

/// An admin-client frame: a correlation id and one command.
pub struct ConfigMessage {
    pub id: String,
    pub data: ConfigCommand,
    pub proxy_id: Option<u32>,
}

impl ConfigMessage {
    pub fn new(id: String, data: ConfigCommand, proxy_id: Option<u32>) -> (r: Self)
        ensures
            r.id == id,
            r.data == data,
            r.proxy_id == proxy_id,
    {
        ConfigMessage { id, data, proxy_id }
    }
}

/// Structured payload of an admin answer.
pub enum AnswerData {
    Workers(Vec<WorkerInfo>),
    State(ConfigState),
}

/// A server-to-client frame answering one admin request.
pub struct ConfigMessageAnswer {
    pub id: String,
    pub status: ConfigMessageStatus,
    pub message: String,
    pub data: Option<AnswerData>,
}

impl ConfigMessageAnswer {
    pub fn new(id: String, status: ConfigMessageStatus, message: String, data: Option<AnswerData>) -> (r: Self)
        ensures
            r.id == id,
            r.status == status,
            r.message == message,
            r.data == data,
    {
        ConfigMessageAnswer { id, status, message, data }
    }
}

/// Work the event loop must perform outside the library after a command.
pub enum SideAction {
    /// Write the frames to the file at `path`, fsync, then report the
    /// outcome through `save_state_result`.
    SaveFile { path: String, frames: Vec<ConfigMessage> },
    /// Read and decode the file at `path`, call `load_state` with the
    /// frames, then report through `load_state_result`.
    LoadFile { path: String },
    /// Fork a worker process for `tag`, then hand the outcome to
    /// `launch_worker`.
    StartWorker { tag: String },
    /// Clear close-on-exec on the carried fds, fork the successor master,
    /// read its one-boolean acknowledgement, then call `upgrade_result`.
    Upgrade { data: UpgradeData },
}

/// One admin-client connection: the request ids awaiting a terminal answer
/// and the answers not yet written to the socket.
pub struct ClientSession {
    pub pending_ids: Vec<String>,
    pub outbox: Vec<ConfigMessageAnswer>,
}

impl ClientSession {
    /// Pending ids occur at most once.
    pub open spec fn wf(&self) -> bool {
        forall|a: int, b: int| 0 <= a < b < self.pending_ids@.len()
            ==> self.pending_ids@[a]@ != self.pending_ids@[b]@
    }

    pub open spec fn has_pending(&self, id: Seq<char>) -> bool {
        exists|j: int| 0 <= j < self.pending_ids@.len() && self.pending_ids@[j]@ == id
    }
}

/// One worker process as tracked by the master.
pub struct Worker {
    pub id: u32,
    pub pid: i32,
    pub fd: i32,
    pub run_state: RunState,
    pub token: u32,
    pub inflight: Vec<(String, Order)>,
    pub outbox: Vec<OrderMessage>,
}

impl Worker {
    /// The worker still owes a reply for `id`.
    pub open spec fn owes(&self, id: Seq<char>) -> bool {
        exists|j: int| 0 <= j < self.inflight@.len() && self.inflight@[j].0@ == id
    }

    /// The worker owes a reply for `id`, and the stored order is `o`.
    pub open spec fn owes_exact(&self, id: Seq<char>, o: OrderModel) -> bool {
        exists|j: int| 0 <= j < self.inflight@.len()
            && (#[trigger] self.inflight@[j]).0@ == id && self.inflight@[j].1@ == o
    }

    /// In-flight request ids occur at most once.
    pub open spec fn wf(&self) -> bool {
        forall|a: int, b: int| 0 <= a < b < self.inflight@.len()
            ==> self.inflight@[a].0@ != self.inflight@[b].0@
    }

    pub fn info(&self) -> (r: WorkerInfo)
        ensures
            r.id == self.id,
            r.pid == self.pid,
            r.run_state == self.run_state,
    {
        WorkerInfo { id: self.id, pid: self.pid, run_state: self.run_state }
    }
}

/// The fan-out record of one admin request id: the tokens of the workers
/// still owing a reply, and the aggregation of the replies seen so far.
pub struct FanOut {
    pub id: String,
    pub tokens: Vec<u32>,
    pub all_ok: bool,
    pub messages: String,
}

impl FanOut {
    /// A tracked id always has at least one worker owing, and each token
    /// occurs at most once.
    pub open spec fn wf(&self) -> bool {
        &&& self.tokens@.len() > 0
        &&& forall|a: int, b: int| 0 <= a < b < self.tokens@.len()
            ==> self.tokens@[a] != self.tokens@[b]
    }

    pub open spec fn has_token(&self, t: u32) -> bool {
        self.tokens@.contains(t)
    }
}

/// Is this worker a destination of an order scoped by `proxy_id`?
pub open spec fn is_target(w: Worker, proxy_id: Option<u32>) -> bool {
    w.run_state == RunState::Running && (match proxy_id {
        Some(pid) => w.id == pid,
        None => true,
    })
}

pub open spec fn any_target(ws: Seq<Worker>, proxy_id: Option<u32>) -> bool {
    exists|j: int| 0 <= j < ws.len() && is_target(ws[j], proxy_id)
}

/// The master's command server.
pub struct CommandServer {
    pub sock_fd: i32,
    pub buffer_size: usize,
    pub max_buffer_size: usize,
    pub state: ConfigState,
    pub conns: Vec<Option<ClientSession>>,
    pub proxies: Vec<Worker>,
    pub inflight: Vec<FanOut>,
    pub next_id: u32,
    pub token_count: u32,
    pub must_stop: bool,
}

impl CommandServer {
    pub open spec fn tokens_unique(&self) -> bool {
        forall|i: int, j: int| 0 <= i < j < self.proxies@.len()
            ==> self.proxies@[i].token != self.proxies@[j].token
    }

    pub open spec fn entry_ids_unique(&self) -> bool {
        forall|i: int, j: int| 0 <= i < j < self.inflight@.len()
            ==> self.inflight@[i].id@ != self.inflight@[j].id@
    }

    pub open spec fn has_entry(&self, id: Seq<char>) -> bool {
        exists|i: int| 0 <= i < self.inflight@.len() && self.inflight@[i].id@ == id
    }

    /// The heart of the fan-out invariant: an entry holds a worker's token
    /// exactly when that worker's in-flight map holds the entry's id.
    pub open spec fn fan_matches(&self) -> bool {
        forall|i: int, j: int|
            0 <= i < self.inflight@.len() && 0 <= j < self.proxies@.len()
                ==> (#[trigger] self.inflight@[i].has_token(self.proxies@[j].token)
                    == self.proxies@[j].owes(self.inflight@[i].id@))
    }

    /// Every token in an entry belongs to a registered worker.
    pub open spec fn fan_tokens_live(&self) -> bool {
        forall|i: int, t: u32|
            0 <= i < self.inflight@.len() && #[trigger] self.inflight@[i].has_token(t)
                ==> exists|j: int| 0 <= j < self.proxies@.len() && self.proxies@[j].token == t
    }

    /// Every id a worker owes is tracked by some entry.
    pub open spec fn owed_has_entry(&self) -> bool {
        forall|j: int, k: int|
            0 <= j < self.proxies@.len() && 0 <= k < self.proxies@[j].inflight@.len()
                ==> self.has_entry((#[trigger] self.proxies@[j].inflight@[k]).0@)
    }

    pub open spec fn wf(&self) -> bool {
        &&& self.state.wf()
        &&& self.tokens_unique()
        &&& forall|j: int| 0 <= j < self.proxies@.len() ==> (#[trigger] self.proxies@[j]).wf()
        &&& self.entry_ids_unique()
        &&& forall|i: int| 0 <= i < self.inflight@.len() ==> (#[trigger] self.inflight@[i]).wf()
        &&& self.fan_matches()
        &&& self.fan_tokens_live()
        &&& self.owed_has_entry()
        &&& forall|c: int| 0 <= c < self.conns@.len() ==> (match #[trigger] self.conns@[c] {
                Some(s) => s.wf(),
                None => true,
            })
    }

    /// A fresh server around a listener fd, an initial state, and the
    /// channel buffer sizes the configuration prescribes.
    pub fn new(sock_fd: i32, state: ConfigState, buffer_size: usize, max_buffer_size: usize) -> (r: CommandServer)
        requires
            state.wf(),
        ensures
            r.wf(),
            r.sock_fd == sock_fd,
            r.buffer_size == buffer_size,
            r.max_buffer_size == max_buffer_size,
            r.state == state,
            r.conns@.len() == 0,
            r.proxies@.len() == 0,
            r.inflight@.len() == 0,
            r.next_id == 0,
            r.token_count == 0,
            !r.must_stop,
    {
        CommandServer {
            sock_fd,
            buffer_size,
            max_buffer_size,
            state,
            conns: Vec::new(),
            proxies: Vec::new(),
            inflight: Vec::new(),
            next_id: 0,
            token_count: 0,
            must_stop: false,
        }
    }

    /// Accepts a new admin session, up to the hard cap; returns its token,
    /// or nothing when the table already holds the cap and the connection
    /// must be closed at once.
    pub fn add_client(&mut self) -> (r: Option<FrontToken>)
        requires
            old(self).wf(),
        ensures
            final(self).wf(),
            *final(self) == (CommandServer { conns: final(self).conns, ..*old(self) }),
            match r {
                Some(t) => {
                    &&& t.0 < final(self).conns@.len()
                    &&& final(self).conns@[t.0 as int] matches Some(s)
                        && s.pending_ids@.len() == 0 && s.outbox@.len() == 0
                    &&& (t.0 as int == old(self).conns@.len()
                            && final(self).conns@ == old(self).conns@.push(final(self).conns@[t.0 as int])
                        || (t.0 < old(self).conns@.len()
                            && old(self).conns@[t.0 as int] is None
                            && final(self).conns@ == old(self).conns@.update(t.0 as int, final(self).conns@[t.0 as int])))
                },
                None => {
                    &&& *final(self) == *old(self)
                    &&& old(self).conns@.len() >= MAX_CLIENTS
                    &&& forall|c: int| 0 <= c < old(self).conns@.len() ==> old(self).conns@[c] is Some
                },
            },
    {
        let mut c: usize = 0;
        while c < self.conns.len()
            invariant
                *self == *old(self),
                old(self).wf(),
                c <= self.conns@.len(),
                forall|d: int| 0 <= d < c ==> self.conns@[d] is Some,
            decreases self.conns@.len() - c,
        {
            if self.conns[c].is_none() {
                self.conns.set(c, Some(ClientSession { pending_ids: Vec::new(), outbox: Vec::new() }));
                return Some(FrontToken(c));
            }
            c += 1;
        }
        if self.conns.len() < MAX_CLIENTS {
            let t = self.conns.len();
            self.conns.push(Some(ClientSession { pending_ids: Vec::new(), outbox: Vec::new() }));
            Some(FrontToken(t))
        } else {
            None
        }
    }

    /// Drops an admin session; its pending ids are forgotten, and later
    /// worker replies for them are collected and discarded.
    pub fn remove_client(&mut self, token: FrontToken)
        requires
            old(self).wf(),
            token.0 < old(self).conns@.len(),
        ensures
            final(self).wf(),
            *final(self) == (CommandServer { conns: final(self).conns, ..*old(self) }),
            final(self).conns@ == old(self).conns@.update(token.0 as int, None::<ClientSession>),
    {
        self.conns.set(token.0, None);
        proof {
            assert(self.proxies == old(self).proxies);
            assert(self.inflight == old(self).inflight);
            assert(self.state == old(self).state);
            assert forall|c: int| 0 <= c < self.conns@.len() implies
                (match #[trigger] self.conns@[c] { Some(s) => s.wf(), None => true }) by {
                if c != token.0 as int {
                    assert(self.conns@[c] == old(self).conns@[c]);
                }
            }
        }
    }

    /// Queues one answer on a session's outbox.
    pub fn reply(&mut self, token: FrontToken, answer: ConfigMessageAnswer)
        requires
            old(self).wf(),
            token.0 < old(self).conns@.len(),
            old(self).conns@[token.0 as int] is Some,
        ensures
            final(self).wf(),
            replied(*old(self), *final(self), token.0 as int),
            last_answer(*final(self), token.0 as int) == answer,
    {
        if let Some(sess) = &mut self.conns[token.0] {
            let ghost ob = sess.outbox@;
            sess.outbox.push(answer);
            proof {
                assert(sess.outbox@.drop_last() =~= ob);
            }
        }
        proof {
            assert(self.proxies == old(self).proxies);
            assert(self.inflight == old(self).inflight);
            assert(self.state == old(self).state);
            assert forall|c: int| 0 <= c < self.conns@.len() implies
                (match #[trigger] self.conns@[c] { Some(s) => s.wf(), None => true }) by {
                if c != token.0 as int {
                    assert(self.conns@[c] == old(self).conns@[c]);
                }
            }
        }
    }
}

/// `f` is `g` with exactly one more answer queued on session `c`, and
/// nothing else changed.
pub open spec fn replied(g: CommandServer, f: CommandServer, c: int) -> bool {
    &&& f == (CommandServer { conns: f.conns, ..g })
    &&& f.conns@.len() == g.conns@.len()
    &&& 0 <= c < g.conns@.len()
    &&& forall|d: int| 0 <= d < g.conns@.len() && d != c ==> f.conns@[d] == g.conns@[d]
    &&& match (g.conns@[c], f.conns@[c]) {
        (Some(os), Some(ns)) => {
            &&& ns.pending_ids == os.pending_ids
            &&& ns.outbox@.len() == os.outbox@.len() + 1
            &&& ns.outbox@.drop_last() == os.outbox@
        },
        _ => false,
    }
}

/// The answer queued last on session `c`.
pub open spec fn last_answer(f: CommandServer, c: int) -> ConfigMessageAnswer {
    match f.conns@[c] {
        Some(ns) => ns.outbox@.last(),
        None => arbitrary(),
    }
}

fn find_key_idx(v: &Vec<(String, Order)>, id: &String) -> (r: Option<usize>)
    ensures
        match r {
            Some(j) => j < v@.len() && v@[j as int].0@ == id@,
            None => forall|k: int| 0 <= k < v@.len() ==> v@[k].0@ != id@,
        },
{
    let mut k: usize = 0;
    while k < v.len()
        invariant
            k <= v@.len(),
            forall|m: int| 0 <= m < k ==> v@[m].0@ != id@,
        decreases v@.len() - k,
    {
        if v[k].0 == *id {
            return Some(k);
        }
        k += 1;
    }
    None
}

fn find_entry_idx(v: &Vec<FanOut>, id: &String) -> (r: Option<usize>)
    ensures
        match r {
            Some(e) => e < v@.len() && v@[e as int].id@ == id@,
            None => forall|k: int| 0 <= k < v@.len() ==> v@[k].id@ != id@,
        },
{
    let mut k: usize = 0;
    while k < v.len()
        invariant
            k <= v@.len(),
            forall|m: int| 0 <= m < k ==> v@[m].id@ != id@,
        decreases v@.len() - k,
    {
        if v[k].id == *id {
            return Some(k);
        }
        k += 1;
    }
    None
}

fn find_worker_idx(v: &Vec<Worker>, token: u32) -> (r: Option<usize>)
    ensures
        match r {
            Some(j) => j < v@.len() && v@[j as int].token == token,
            None => forall|k: int| 0 <= k < v@.len() ==> v@[k].token != token,
        },
{
    let mut k: usize = 0;
    while k < v.len()
        invariant
            k <= v@.len(),
            forall|m: int| 0 <= m < k ==> v@[m].token != token,
        decreases v@.len() - k,
    {
        if v[k].token == token {
            return Some(k);
        }
        k += 1;
    }
    None
}

fn find_token_idx(v: &Vec<u32>, t: u32) -> (r: Option<usize>)
    ensures
        match r {
            Some(j) => j < v@.len() && v@[j as int] == t,
            None => forall|k: int| 0 <= k < v@.len() ==> v@[k] != t,
        },
{
    let mut k: usize = 0;
    while k < v.len()
        invariant
            k <= v@.len(),
            forall|m: int| 0 <= m < k ==> v@[m] != t,
        decreases v@.len() - k,
    {
        if v[k] == t {
            return Some(k);
        }
        k += 1;
    }
    None
}

fn find_pending_idx(v: &Vec<String>, id: &String) -> (r: Option<usize>)
    ensures
        match r {
            Some(j) => j < v@.len() && v@[j as int]@ == id@,
            None => forall|k: int| 0 <= k < v@.len() ==> v@[k]@ != id@,
        },
{
    let mut k: usize = 0;
    while k < v.len()
        invariant
            k <= v@.len(),
            forall|m: int| 0 <= m < k ==> v@[m]@ != id@,
        decreases v@.len() - k,
    {
        if v[k] == *id {
            return Some(k);
        }
        k += 1;
    }
    None
}

/// The effect of fanning one order out on a single worker: a target records
/// the id, queues the frame and, on a stop order, moves to `Stopping`; any
/// other worker is untouched.
pub open spec fn dispatched_worker(ow: Worker, nw: Worker, id: Seq<char>, proxy_id: Option<u32>, o: OrderModel) -> bool {
    if is_target(ow, proxy_id) {
        &&& nw.id == ow.id
        &&& nw.pid == ow.pid
        &&& nw.fd == ow.fd
        &&& nw.token == ow.token
        &&& nw.run_state == (if o is SoftStop || o is HardStop { RunState::Stopping } else { ow.run_state })
        &&& nw.outbox@.len() == ow.outbox@.len() + 1
        &&& nw.outbox@.drop_last() == ow.outbox@
        &&& nw.outbox@.last().id@ == id
        &&& nw.outbox@.last().order@ == o
        &&& nw.owes(id)
        &&& nw.owes_exact(id, o)
        &&& forall|x: Seq<char>| x != id ==> #[trigger] nw.owes(x) == ow.owes(x)
        &&& forall|x: Seq<char>, oo: OrderModel| x != id
            ==> #[trigger] nw.owes_exact(x, oo) == ow.owes_exact(x, oo)
    } else {
        nw == ow
    }
}

/// The id of the `k`-th configuration replay frame sent to a fresh worker.
pub open spec fn launch_id(k: int) -> Seq<char> {
    "LAUNCH-CONF-"@ + dec_str(k)
}

/// `x` is none of the first `n` replay ids.
pub open spec fn not_launch_id(x: Seq<char>, n: int) -> bool {
    forall|k: int| 0 <= k < n ==> x != #[trigger] launch_id(k)
}

/// The token set a fan-out entry for `id` holds after a dispatch: whatever
/// it held before, plus the token of every target.
pub open spec fn dispatched_tokens(g: CommandServer, id: Seq<char>, proxy_id: Option<u32>, t: u32) -> bool {
    ||| (g.has_entry(id) && entry_at(g.inflight@, id).has_token(t))
    ||| exists|j: int| 0 <= j < g.proxies@.len()
        && is_target(#[trigger] g.proxies@[j], proxy_id) && g.proxies@[j].token == t
}

/// The full effect of `dispatch_order`: the order is applied to the
/// authoritative state, every target worker is served as in
/// `dispatched_worker`, the fan-out tracker gains the targets under the
/// request id, and the requesting session either holds the id pending or,
/// when there is no target at all, receives an immediate `Error` answer.
pub open spec fn dispatched(g: CommandServer, f: CommandServer, c: int, id: Seq<char>, proxy_id: Option<u32>, o: OrderModel) -> bool {
    &&& f.sock_fd == g.sock_fd
    &&& f.buffer_size == g.buffer_size
    &&& f.max_buffer_size == g.max_buffer_size
    &&& f.next_id == g.next_id
    &&& f.token_count == g.token_count
    &&& f.must_stop == g.must_stop
    &&& f.state@ == apply(g.state@, o)
    &&& f.proxies@.len() == g.proxies@.len()
    &&& forall|j: int| 0 <= j < g.proxies@.len()
        ==> dispatched_worker(#[trigger] g.proxies@[j], f.proxies@[j], id, proxy_id, o)
    &&& forall|e: int| 0 <= e < g.inflight@.len() && (#[trigger] g.inflight@[e]).id@ != id
        ==> f.inflight@[e] == g.inflight@[e]
    &&& forall|x: Seq<char>| x != id ==> (#[trigger] f.has_entry(x)) == g.has_entry(x)
    &&& forall|x: Seq<char>| x != id && g.has_entry(x)
        ==> entry_at(f.inflight@, x) == entry_at(g.inflight@, x)
    &&& f.conns@.len() == g.conns@.len()
    &&& forall|d: int| 0 <= d < g.conns@.len() && d != c ==> #[trigger] f.conns@[d] == g.conns@[d]
    &&& if any_target(g.proxies@, proxy_id) {
        &&& f.has_entry(id)
        &&& ({
            // a fresh entry starts clean; an existing one keeps its
            // aggregation and gains the targets' tokens
            let ne = entry_at(f.inflight@, id);
            &&& forall|t: u32| #[trigger] ne.has_token(t) == dispatched_tokens(g, id, proxy_id, t)
            &&& ne.all_ok == (if g.has_entry(id) { entry_at(g.inflight@, id).all_ok } else { true })
            &&& ne.messages@ == (if g.has_entry(id) {
                entry_at(g.inflight@, id).messages@
            } else {
                Seq::<char>::empty()
            })
        })
        &&& match (g.conns@[c], f.conns@[c]) {
            (Some(os), Some(ns)) => {
                &&& ns.outbox == os.outbox
                &&& ns.has_pending(id)
                &&& forall|x: Seq<char>| x != id ==> #[trigger] ns.has_pending(x) == os.has_pending(x)
            },
            _ => false,
        }
    } else {
        &&& f.inflight == g.inflight
        &&& replied((CommandServer { state: f.state, ..g }), f, c)
        &&& last_answer(f, c).id@ == id
        &&& last_answer(f, c).status == ConfigMessageStatus::Error
    }
}

impl CommandServer {
    /// Applies the order to the authoritative state and fans it out to
    /// every running worker, or to the one named by `proxy_id`. Each target
    /// records the id and the order itself in its in-flight map, the fan-out
    /// tracker gains the targets' tokens under the request id (a fresh entry
    /// starts with a clean aggregation), and the requesting session keeps
    /// the id pending until the fan-out drains. With no target at all the
    /// session gets an `Error` answer at once.
    #[verifier::rlimit(100)]
    pub fn dispatch_order(&mut self, token: FrontToken, message_id: &String, proxy_id: Option<u32>, order: &Order)
        requires
            old(self).wf(),
            token.0 < old(self).conns@.len(),
            old(self).conns@[token.0 as int] is Some,
        ensures
            final(self).wf(),
            dispatched(*old(self), *final(self), token.0 as int, message_id@, proxy_id, order@),
    {
        let ghost g = *self;
        self.state.handle_order(order);
        let ghost g0 = *self;
        proof {
            assert(g0.inflight == g.inflight);
            assert(g0.proxies == g.proxies);
            assert(g0.has_entry(message_id@) == g.has_entry(message_id@)) by {
                if g0.has_entry(message_id@) {
                    let e = choose|e: int| 0 <= e < g0.inflight@.len() && g0.inflight@[e].id@ == message_id@;
                    assert(g.inflight@[e].id@ == message_id@);
                }
                if g.has_entry(message_id@) {
                    let e = choose|e: int| 0 <= e < g.inflight@.len() && g.inflight@[e].id@ == message_id@;
                    assert(g0.inflight@[e].id@ == message_id@);
                }
            }
        }
        let mut sent = false;
        let mut i: usize = 0;
        while i < self.proxies.len()
            invariant
                self.wf(),
                token.0 < self.conns@.len(),
                self.conns@[token.0 as int] is Some,
                i <= self.proxies@.len(),
                self.proxies@.len() == g0.proxies@.len(),
                self.sock_fd == g0.sock_fd,
                self.buffer_size == g0.buffer_size,
                self.max_buffer_size == g0.max_buffer_size,
                self.state == g0.state,
                self.next_id == g0.next_id,
                self.token_count == g0.token_count,
                self.must_stop == g0.must_stop,
                self.conns == g0.conns,
                g0.wf(),
                forall|j: int| i <= j < g0.proxies@.len() ==> #[trigger] self.proxies@[j] == g0.proxies@[j],
                forall|j: int| 0 <= j < i
                    ==> dispatched_worker(#[trigger] g0.proxies@[j], self.proxies@[j], message_id@, proxy_id, order@),
                sent == exists|j: int| 0 <= j < i && is_target(#[trigger] g0.proxies@[j], proxy_id),
                !sent ==> *self == g0,
                forall|e: int| 0 <= e < g0.inflight@.len() && (#[trigger] g0.inflight@[e]).id@ != message_id@
                    ==> self.inflight@[e] == g0.inflight@[e],
                forall|e: int| 0 <= e < g0.inflight@.len() && (#[trigger] g0.inflight@[e]).id@ == message_id@
                    ==> self.inflight@[e].id@ == message_id@,
                g0.inflight@.len() <= self.inflight@.len(),
                self.inflight@.len() <= g0.inflight@.len() + 1,
                forall|e: int| g0.inflight@.len() <= e < self.inflight@.len()
                    ==> (#[trigger] self.inflight@[e]).id@ == message_id@,
                self.has_entry(message_id@) == (g0.has_entry(message_id@) || sent),
                self.has_entry(message_id@) ==> ({
                    let ne = entry_at(self.inflight@, message_id@);
                    &&& forall|t: u32| #[trigger] ne.has_token(t) == (
                            (g0.has_entry(message_id@) && entry_at(g0.inflight@, message_id@).has_token(t))
                            || exists|j: int| 0 <= j < i && is_target(#[trigger] g0.proxies@[j], proxy_id)
                                && g0.proxies@[j].token == t)
                    &&& ne.all_ok == (if g0.has_entry(message_id@) {
                        entry_at(g0.inflight@, message_id@).all_ok
                    } else {
                        true
                    })
                    &&& ne.messages@ == (if g0.has_entry(message_id@) {
                        entry_at(g0.inflight@, message_id@).messages@
                    } else {
                        Seq::<char>::empty()
                    })
                }),
            decreases self.proxies@.len() - i,
        {
            let ghost pre = *self;
            let target = (match proxy_id {
                Some(pid) => self.proxies[i].id == pid,
                None => true,
            }) && self.proxies[i].run_state == RunState::Running;
            proof {
                assert(target == is_target(g0.proxies@[i as int], proxy_id));
            }
            if target {
                if order.is_stop() {
                    self.proxies[i].run_state = RunState::Stopping;
                }
                self.proxies[i].outbox.push(OrderMessage { id: message_id.clone(), order: order.clone() });
                let tok = self.proxies[i].token;
                proof {
                    assert(tok == pre.proxies@[i as int].token);
                    assert(self.proxies@[i as int].inflight == pre.proxies@[i as int].inflight);
                    assert(self.proxies@[i as int].outbox@.drop_last() =~= pre.proxies@[i as int].outbox@);
                }
                let ghost pw = self.proxies@[i as int];
                let owed = find_key_idx(&self.proxies[i].inflight, message_id);
                match owed {
                    Some(jf) => {
                        // already owed: replace the stored pair so the map
                        // holds this order; the entry already has the token
                        proof {
                            assert(pw.inflight@[jf as int].0@ == message_id@);
                            assert(pw.owes(message_id@));
                            assert(pre.has_entry(message_id@)) by {
                                assert(pre.proxies@[i as int].owes(message_id@));
                                assert(pre.has_entry(pre.proxies@[i as int].inflight@[jf as int].0@));
                            }
                            assert(self.inflight == pre.inflight);
                        }
                        self.proxies[i].inflight.remove(jf);
                        let ghost mw = self.proxies@[i as int];
                        proof {
                            assert(mw.inflight@ == pw.inflight@.remove(jf as int));
                            assert(!mw.owes(message_id@)) by {
                                if mw.owes(message_id@) {
                                    let k = choose|k: int| 0 <= k < mw.inflight@.len() && mw.inflight@[k].0@ == message_id@;
                                    if k < jf as int {
                                        assert(pw.inflight@[k].0@ == pw.inflight@[jf as int].0@);
                                        assert(false);
                                    } else {
                                        assert(pw.inflight@[k + 1].0@ == pw.inflight@[jf as int].0@);
                                        assert(false);
                                    }
                                }
                            }
                            assert forall|x: Seq<char>| x != message_id@ implies
                                #[trigger] mw.owes(x) == pw.owes(x) by {
                                if mw.owes(x) {
                                    let k = choose|k: int| 0 <= k < mw.inflight@.len() && mw.inflight@[k].0@ == x;
                                    assert(mw.inflight@[k] == if k < jf as int { pw.inflight@[k] } else { pw.inflight@[k + 1] });
                                }
                                if pw.owes(x) {
                                    let k = choose|k: int| 0 <= k < pw.inflight@.len() && pw.inflight@[k].0@ == x;
                                    assert(k != jf as int);
                                    if k < jf as int {
                                        assert(mw.inflight@[k].0@ == x);
                                    } else {
                                        assert(mw.inflight@[k - 1].0@ == x);
                                    }
                                }
                            }
                            assert forall|x: Seq<char>, oo: OrderModel| x != message_id@ implies
                                #[trigger] mw.owes_exact(x, oo) == pw.owes_exact(x, oo) by {
                                if mw.owes_exact(x, oo) {
                                    let k = choose|k: int| 0 <= k < mw.inflight@.len()
                                        && mw.inflight@[k].0@ == x && mw.inflight@[k].1@ == oo;
                                    assert(mw.inflight@[k] == if k < jf as int { pw.inflight@[k] } else { pw.inflight@[k + 1] });
                                }
                                if pw.owes_exact(x, oo) {
                                    let k = choose|k: int| 0 <= k < pw.inflight@.len()
                                        && pw.inflight@[k].0@ == x && pw.inflight@[k].1@ == oo;
                                    assert(k != jf as int);
                                    if k < jf as int {
                                        assert(mw.inflight@[k].0@ == x && mw.inflight@[k].1@ == oo);
                                    } else {
                                        assert(mw.inflight@[k - 1].0@ == x && mw.inflight@[k - 1].1@ == oo);
                                    }
                                }
                            }
                            assert(mw.wf()) by {
                                assert forall|a: int, b: int| 0 <= a < b < mw.inflight@.len() implies
                                    mw.inflight@[a].0@ != mw.inflight@[b].0@ by {
                                    assert(mw.inflight@[a] == if a < jf as int { pw.inflight@[a] } else { pw.inflight@[a + 1] });
                                    assert(mw.inflight@[b] == if b < jf as int { pw.inflight@[b] } else { pw.inflight@[b + 1] });
                                }
                            }
                        }
                        self.proxies[i].inflight.push((message_id.clone(), order.clone()));
                        proof {
                            let nw = self.proxies@[i as int];
                            assert(nw.inflight@.drop_last() =~= mw.inflight@);
                            assert(nw.inflight@.last().0@ == message_id@);
                            assert(nw.inflight@.last().1@ == order@);
                            assert(nw.owes(message_id@));
                            assert(nw.owes_exact(message_id@, order@));
                            assert forall|x: Seq<char>| x != message_id@ implies
                                #[trigger] nw.owes(x) == mw.owes(x) by {
                                if nw.owes(x) {
                                    let k = choose|k: int| 0 <= k < nw.inflight@.len() && nw.inflight@[k].0@ == x;
                                    assert(k < mw.inflight@.len());
                                    assert(mw.inflight@[k].0@ == x);
                                }
                                if mw.owes(x) {
                                    let k = choose|k: int| 0 <= k < mw.inflight@.len() && mw.inflight@[k].0@ == x;
                                    assert(nw.inflight@[k].0@ == x);
                                }
                            }
                            assert forall|x: Seq<char>, oo: OrderModel| x != message_id@ implies
                                #[trigger] nw.owes_exact(x, oo) == mw.owes_exact(x, oo) by {
                                if nw.owes_exact(x, oo) {
                                    let k = choose|k: int| 0 <= k < nw.inflight@.len()
                                        && nw.inflight@[k].0@ == x && nw.inflight@[k].1@ == oo;
                                    assert(k < mw.inflight@.len());
                                    assert(mw.inflight@[k].0@ == x && mw.inflight@[k].1@ == oo);
                                }
                                if mw.owes_exact(x, oo) {
                                    let k = choose|k: int| 0 <= k < mw.inflight@.len()
                                        && mw.inflight@[k].0@ == x && mw.inflight@[k].1@ == oo;
                                    assert(nw.inflight@[k].0@ == x && nw.inflight@[k].1@ == oo);
                                }
                            }
                            assert(nw.wf()) by {
                                assert forall|a: int, b: int| 0 <= a < b < nw.inflight@.len() implies
                                    nw.inflight@[a].0@ != nw.inflight@[b].0@ by {
                                    if b < nw.inflight@.len() - 1 {
                                        assert(mw.inflight@[a].0@ != mw.inflight@[b].0@);
                                    } else {
                                        assert(mw.inflight@[a].0@ != message_id@);
                                    }
                                }
                            }
                            // the owed set is unchanged, so the tracker still agrees
                            assert forall|x: Seq<char>| #[trigger] nw.owes(x) == pw.owes(x) by {
                                if x != message_id@ {
                                    assert(nw.owes(x) == mw.owes(x));
                                }
                            }
                            assert(self.wf()) by {
                                assert forall|j: int| 0 <= j < self.proxies@.len() implies
                                    (#[trigger] self.proxies@[j]).token == pre.proxies@[j].token by {
                                    if j != i {
                                        assert(self.proxies@[j] == pre.proxies@[j]);
                                    }
                                }
                                assert forall|j: int| 0 <= j < self.proxies@.len() implies
                                    (#[trigger] self.proxies@[j]).wf() by {
                                    if j != i {
                                        assert(self.proxies@[j] == pre.proxies@[j]);
                                        assert(pre.proxies@[j].wf());
                                    }
                                }
                                assert(self.tokens_unique());
                                assert forall|e2: int, t: u32|
                                    0 <= e2 < self.inflight@.len() && #[trigger] self.inflight@[e2].has_token(t) implies
                                    exists|j: int| 0 <= j < self.proxies@.len() && self.proxies@[j].token == t by {
                                    assert(pre.inflight@[e2].has_token(t));
                                    let j = choose|j: int| 0 <= j < pre.proxies@.len() && pre.proxies@[j].token == t;
                                    assert(self.proxies@[j].token == t);
                                }
                                assert forall|e2: int, j: int|
                                    0 <= e2 < self.inflight@.len() && 0 <= j < self.proxies@.len() implies
                                    (#[trigger] self.inflight@[e2].has_token(self.proxies@[j].token)
                                        == self.proxies@[j].owes(self.inflight@[e2].id@)) by {
                                    assert(self.inflight@[e2] == pre.inflight@[e2]);
                                    if j != i {
                                        assert(self.proxies@[j] == pre.proxies@[j]);
                                    } else {
                                        assert(self.proxies@[j].owes(self.inflight@[e2].id@)
                                            == pw.owes(self.inflight@[e2].id@));
                                    }
                                }
                                assert forall|j: int, k: int|
                                    0 <= j < self.proxies@.len() && 0 <= k < self.proxies@[j].inflight@.len() implies
                                    self.has_entry((#[trigger] self.proxies@[j].inflight@[k]).0@) by {
                                    let x = self.proxies@[j].inflight@[k].0@;
                                    if j != i {
                                        assert(self.proxies@[j] == pre.proxies@[j]);
                                        assert(pre.has_entry(pre.proxies@[j].inflight@[k].0@));
                                    } else {
                                        assert(nw.owes(x)) by {
                                            assert(nw.inflight@[k].0@ == x);
                                        }
                                        assert(pw.owes(x));
                                        let k2 = choose|k2: int| 0 <= k2 < pw.inflight@.len() && pw.inflight@[k2].0@ == x;
                                        assert(pre.has_entry(pre.proxies@[i as int].inflight@[k2].0@));
                                    }
                                    let e3 = choose|e3: int| 0 <= e3 < pre.inflight@.len() && pre.inflight@[e3].id@ == x;
                                    assert(self.inflight@[e3] == pre.inflight@[e3]);
                                }
                            }
                            // the entry for the id already held this token
                            let ce = choose|e: int| 0 <= e < pre.inflight@.len() && pre.inflight@[e].id@ == message_id@;
                            lemma_entry_at_index(pre.inflight@, message_id@, ce);
                            assert(pre.inflight@[ce].has_token(pre.proxies@[i as int].token)
                                == pre.proxies@[i as int].owes(message_id@));
                            assert(entry_at(self.inflight@, message_id@).has_token(tok));
                        }
                    },
                    None => {
                        proof {
                            assert(!pw.owes(message_id@));
                        }
                        self.proxies[i].inflight.push((message_id.clone(), order.clone()));
                        proof {
                            let nw = self.proxies@[i as int];
                            assert(nw.inflight@.drop_last() =~= pw.inflight@);
                            assert(nw.inflight@.last().0@ == message_id@);
                            assert(nw.inflight@.last().1@ == order@);
                            assert(nw.owes(message_id@));
                            assert(nw.owes_exact(message_id@, order@));
                            assert forall|x: Seq<char>| x != message_id@ implies
                                #[trigger] nw.owes(x) == pw.owes(x) by {
                                if nw.owes(x) {
                                    let k = choose|k: int| 0 <= k < nw.inflight@.len() && nw.inflight@[k].0@ == x;
                                    assert(k < pw.inflight@.len());
                                    assert(pw.inflight@[k].0@ == x);
                                }
                                if pw.owes(x) {
                                    let k = choose|k: int| 0 <= k < pw.inflight@.len() && pw.inflight@[k].0@ == x;
                                    assert(nw.inflight@[k].0@ == x);
                                }
                            }
                            assert forall|x: Seq<char>, oo: OrderModel| x != message_id@ implies
                                #[trigger] nw.owes_exact(x, oo) == pw.owes_exact(x, oo) by {
                                if nw.owes_exact(x, oo) {
                                    let k = choose|k: int| 0 <= k < nw.inflight@.len()
                                        && nw.inflight@[k].0@ == x && nw.inflight@[k].1@ == oo;
                                    assert(k < pw.inflight@.len());
                                    assert(pw.inflight@[k].0@ == x && pw.inflight@[k].1@ == oo);
                                }
                                if pw.owes_exact(x, oo) {
                                    let k = choose|k: int| 0 <= k < pw.inflight@.len()
                                        && pw.inflight@[k].0@ == x && pw.inflight@[k].1@ == oo;
                                    assert(nw.inflight@[k].0@ == x && nw.inflight@[k].1@ == oo);
                                }
                            }
                            assert(nw.wf()) by {
                                assert forall|a: int, b: int| 0 <= a < b < nw.inflight@.len() implies
                                    nw.inflight@[a].0@ != nw.inflight@[b].0@ by {
                                    if b < nw.inflight@.len() - 1 {
                                        assert(pw.inflight@[a].0@ != pw.inflight@[b].0@);
                                    } else {
                                        assert(pw.inflight@[a].0@ != message_id@);
                                    }
                                }
                            }
                        }
                        let tok2 = self.proxies[i].token;
                        let ghost mid_state = *self;
                        match find_entry_idx(&self.inflight, message_id) {
                            Some(e) => {
                                proof {
                                    assert(self.inflight@[e as int] == pre.inflight@[e as int]);
                                    // before this step the worker did not owe
                                    // the id, so its token is not in the entry
                                    assert(!pre.inflight@[e as int].has_token(tok2));
                                    assert(!self.inflight@[e as int].tokens@.contains(tok2));
                                    lemma_entry_at_index(pre.inflight@, message_id@, e as int);
                                }
                                let ghost pe = self.inflight@[e as int];
                                self.inflight[e].tokens.push(tok2);
                                proof {
                                    let ne = self.inflight@[e as int];
                                    assert(ne.tokens@.drop_last() =~= pe.tokens@);
                                    assert(ne.id@ == message_id@);
                                    assert(ne.all_ok == pe.all_ok && ne.messages == pe.messages);
                                    assert forall|t: u32| #[trigger] ne.has_token(t) == (pe.has_token(t) || t == tok2) by {
                                        if ne.tokens@.contains(t) {
                                            let k = choose|k: int| 0 <= k < ne.tokens@.len() && ne.tokens@[k] == t;
                                            if k < ne.tokens@.len() - 1 {
                                                assert(pe.tokens@[k] == t);
                                            }
                                        }
                                        if pe.tokens@.contains(t) {
                                            let k = choose|k: int| 0 <= k < pe.tokens@.len() && pe.tokens@[k] == t;
                                            assert(ne.tokens@[k] == t);
                                        }
                                        if t == tok2 {
                                            assert(ne.tokens@[ne.tokens@.len() - 1] == t);
                                        }
                                    }
                                    assert(ne.wf()) by {
                                        assert forall|a: int, b: int| 0 <= a < b < ne.tokens@.len() implies
                                            ne.tokens@[a] != ne.tokens@[b] by {
                                            if b < ne.tokens@.len() - 1 {
                                                assert(pe.tokens@[a] != pe.tokens@[b]);
                                            } else {
                                                assert(pe.tokens@.contains(pe.tokens@[a]));
                                            }
                                        }
                                    }
                                    assert forall|e2: int| 0 <= e2 < self.inflight@.len() && e2 != e as int implies
                                        #[trigger] self.inflight@[e2] == pre.inflight@[e2] by {}
                                    assert forall|e2: int, j: int|
                                        0 <= e2 < self.inflight@.len() && 0 <= j < self.proxies@.len() implies
                                        (#[trigger] self.inflight@[e2].has_token(self.proxies@[j].token)
                                            == self.proxies@[j].owes(self.inflight@[e2].id@)) by {
                                        let wtok = self.proxies@[j].token;
                                        if j != i {
                                            assert(self.proxies@[j] == pre.proxies@[j]);
                                            assert(wtok != tok2);
                                        }
                                        if e2 == e as int {
                                            if j == i {
                                                assert(ne.has_token(tok2));
                                                assert(self.proxies@[j].owes(message_id@));
                                            } else {
                                                assert(ne.has_token(wtok) == pe.has_token(wtok));
                                                assert(pre.inflight@[e2].has_token(wtok)
                                                    == pre.proxies@[j].owes(message_id@));
                                            }
                                        } else {
                                            assert(self.inflight@[e2] == pre.inflight@[e2]);
                                            assert(self.inflight@[e2].id@ != message_id@) by {
                                                assert(pre.inflight@[e as int].id@ == message_id@);
                                            }
                                            if j == i {
                                                assert(self.proxies@[j].owes(self.inflight@[e2].id@)
                                                    == pw.owes(self.inflight@[e2].id@));
                                            }
                                        }
                                    }
                                    assert forall|j: int| 0 <= j < self.proxies@.len() && j != i implies
                                        #[trigger] self.proxies@[j] == pre.proxies@[j] by {}
                                    assert forall|e2: int, t: u32|
                                        0 <= e2 < self.inflight@.len() && #[trigger] self.inflight@[e2].has_token(t) implies
                                        exists|j: int| 0 <= j < self.proxies@.len() && self.proxies@[j].token == t by {
                                        if e2 == e as int && t == tok2 {
                                            assert(self.proxies@[i as int].token == t);
                                        } else {
                                            if e2 == e as int {
                                                assert(pe.has_token(t));
                                            }
                                            assert(pre.inflight@[e2].has_token(t));
                                            let j = choose|j: int| 0 <= j < pre.proxies@.len() && pre.proxies@[j].token == t;
                                            assert(self.proxies@[j].token == pre.proxies@[j].token);
                                        }
                                    }
                                    assert forall|j: int, k: int|
                                        0 <= j < self.proxies@.len() && 0 <= k < self.proxies@[j].inflight@.len() implies
                                        self.has_entry((#[trigger] self.proxies@[j].inflight@[k]).0@) by {
                                        let x = self.proxies@[j].inflight@[k].0@;
                                        if x == message_id@ {
                                            assert(self.inflight@[e as int].id@ == message_id@);
                                        } else {
                                            if j == i {
                                                assert(k < pw.inflight@.len());
                                                assert(pw.owes(x));
                                            } else {
                                                assert(self.proxies@[j] == pre.proxies@[j]);
                                            }
                                            assert(pre.has_entry(x));
                                            let e3 = choose|e3: int|
                                                0 <= e3 < pre.inflight@.len() && pre.inflight@[e3].id@ == x;
                                            assert(self.inflight@[e3].id@ == x);
                                        }
                                    }
                                    assert(self.wf());
                                    // the updated entry is the one for the id
                                    lemma_entry_at_index(self.inflight@, message_id@, e as int);
                                }
                            },
                            None => {
                                proof {
                                    assert(!mid_state.has_entry(message_id@));
                                    // nothing owed this id before: otherwise an
                                    // entry would exist
                                    assert(!g0.has_entry(message_id@));
                                    assert(!sent);
                                }
                                let mut toks: Vec<u32> = Vec::new();
                                toks.push(tok2);
                                let entry = FanOut {
                                    id: message_id.clone(),
                                    tokens: toks,
                                    all_ok: true,
                                    messages: String::new(),
                                };
                                self.inflight.push(entry);
                                proof {
                                    assert(self.inflight@.drop_last() =~= mid_state.inflight@);
                                    let enew = self.inflight@.len() - 1;
                                    let ne = self.inflight@[enew];
                                    assert(ne.tokens@.len() == 1 && ne.tokens@[0] == tok2);
                                    assert(ne.all_ok && ne.messages@ == Seq::<char>::empty());
                                    assert forall|t: u32| #[trigger] ne.has_token(t) == (t == tok2) by {
                                        if ne.tokens@.contains(t) {
                                            let k = choose|k: int| 0 <= k < ne.tokens@.len() && ne.tokens@[k] == t;
                                            assert(k == 0);
                                        }
                                        if t == tok2 {
                                            assert(ne.tokens@[0] == t);
                                        }
                                    }
                                    assert forall|e2: int| 0 <= e2 < enew implies
                                        #[trigger] self.inflight@[e2] == pre.inflight@[e2] by {}
                                    // no worker but this one owes the id
                                    assert forall|j: int| 0 <= j < self.proxies@.len() && j != i implies
                                        !(#[trigger] self.proxies@[j]).owes(message_id@) by {
                                        assert(self.proxies@[j] == pre.proxies@[j]);
                                        if pre.proxies@[j].owes(message_id@) {
                                            let k = choose|k: int|
                                                0 <= k < pre.proxies@[j].inflight@.len()
                                                && pre.proxies@[j].inflight@[k].0@ == message_id@;
                                            assert(pre.has_entry(pre.proxies@[j].inflight@[k].0@));
                                            assert(false);
                                        }
                                    }
                                    assert forall|e2: int, j: int|
                                        0 <= e2 < self.inflight@.len() && 0 <= j < self.proxies@.len() implies
                                        (#[trigger] self.inflight@[e2].has_token(self.proxies@[j].token)
                                            == self.proxies@[j].owes(self.inflight@[e2].id@)) by {
                                        let wtok = self.proxies@[j].token;
                                        if j != i {
                                            assert(self.proxies@[j] == pre.proxies@[j]);
                                            assert(wtok != tok2);
                                        }
                                        if e2 == enew {
                                            if j == i {
                                                assert(ne.has_token(tok2));
                                                assert(self.proxies@[j].owes(message_id@));
                                            } else {
                                                assert(!ne.has_token(wtok));
                                                assert(!self.proxies@[j].owes(message_id@));
                                            }
                                        } else {
                                            assert(self.inflight@[e2] == pre.inflight@[e2]);
                                            assert(self.inflight@[e2].id@ != message_id@);
                                            if j == i {
                                                assert(self.proxies@[j].owes(self.inflight@[e2].id@)
                                                    == pw.owes(self.inflight@[e2].id@));
                                            }
                                        }
                                    }
                                    assert forall|e2: int, t: u32|
                                        0 <= e2 < self.inflight@.len() && #[trigger] self.inflight@[e2].has_token(t) implies
                                        exists|j: int| 0 <= j < self.proxies@.len() && self.proxies@[j].token == t by {
                                        if e2 == enew {
                                            assert(t == tok2);
                                            assert(self.proxies@[i as int].token == t);
                                        } else {
                                            assert(pre.inflight@[e2].has_token(t));
                                            let j = choose|j: int| 0 <= j < pre.proxies@.len() && pre.proxies@[j].token == t;
                                            assert(self.proxies@[j].token == pre.proxies@[j].token);
                                        }
                                    }
                                    assert forall|j: int, k: int|
                                        0 <= j < self.proxies@.len() && 0 <= k < self.proxies@[j].inflight@.len() implies
                                        self.has_entry((#[trigger] self.proxies@[j].inflight@[k]).0@) by {
                                        let x = self.proxies@[j].inflight@[k].0@;
                                        if x == message_id@ {
                                            assert(self.inflight@[enew].id@ == message_id@);
                                        } else {
                                            if j == i {
                                                assert(k < pw.inflight@.len());
                                                assert(pw.owes(x));
                                            } else {
                                                assert(self.proxies@[j] == pre.proxies@[j]);
                                            }
                                            assert(pre.has_entry(x));
                                            let e3 = choose|e3: int|
                                                0 <= e3 < pre.inflight@.len() && pre.inflight@[e3].id@ == x;
                                            assert(self.inflight@[e3].id@ == x);
                                        }
                                    }
                                    assert forall|e2: int, f2: int| 0 <= e2 < f2 < self.inflight@.len() implies
                                        self.inflight@[e2].id@ != self.inflight@[f2].id@ by {
                                        if f2 == enew {
                                            assert(pre.inflight@[e2].id@ != message_id@);
                                        }
                                    }
                                    assert(self.wf());
                                    lemma_entry_at_index(self.inflight@, message_id@, enew);
                                }
                            },
                        }
                    },
                }
                sent = true;
                proof {
                    assert(is_target(g0.proxies@[i as int], proxy_id));
                    assert(dispatched_worker(g0.proxies@[i as int], self.proxies@[i as int], message_id@, proxy_id, order@));
                    assert forall|j: int| 0 <= j < i implies
                        dispatched_worker(#[trigger] g0.proxies@[j], self.proxies@[j], message_id@, proxy_id, order@) by {
                        assert(self.proxies@[j] == pre.proxies@[j]);
                    }
                    assert(self.has_entry(message_id@));
                    // the tracked token set grows by exactly this target
                    if pre.has_entry(message_id@) {
                        let ce = choose|e2: int| 0 <= e2 < pre.inflight@.len() && pre.inflight@[e2].id@ == message_id@;
                        lemma_entry_at_index(pre.inflight@, message_id@, ce);
                    }
                    let ne = entry_at(self.inflight@, message_id@);
                    assert forall|t: u32| #[trigger] ne.has_token(t) == (
                            (g0.has_entry(message_id@) && entry_at(g0.inflight@, message_id@).has_token(t))
                            || exists|j: int| 0 <= j < i + 1 && is_target(#[trigger] g0.proxies@[j], proxy_id)
                                && g0.proxies@[j].token == t) by {
                        if t == tok {
                            assert(ne.has_token(t));
                            assert(0 <= i < i + 1 && is_target(g0.proxies@[i as int], proxy_id)
                                && g0.proxies@[i as int].token == t);
                        } else {
                            assert((exists|j: int| 0 <= j < i + 1 && is_target(#[trigger] g0.proxies@[j], proxy_id)
                                    && g0.proxies@[j].token == t)
                                == (exists|j: int| 0 <= j < i && is_target(#[trigger] g0.proxies@[j], proxy_id)
                                    && g0.proxies@[j].token == t)) by {
                                if exists|j: int| 0 <= j < i + 1 && is_target(#[trigger] g0.proxies@[j], proxy_id)
                                    && g0.proxies@[j].token == t {
                                    let j = choose|j: int| 0 <= j < i + 1
                                        && is_target(#[trigger] g0.proxies@[j], proxy_id)
                                        && g0.proxies@[j].token == t;
                                    assert(j != i);
                                    assert(0 <= j < i && is_target(g0.proxies@[j], proxy_id)
                                        && g0.proxies@[j].token == t);
                                }
                            }
                        }
                    }
                }
            } else {
                proof {
                    if self.has_entry(message_id@) {
                        let ne = entry_at(self.inflight@, message_id@);
                        assert forall|t: u32| #[trigger] ne.has_token(t) == (
                                (g0.has_entry(message_id@) && entry_at(g0.inflight@, message_id@).has_token(t))
                                || exists|j: int| 0 <= j < i + 1 && is_target(#[trigger] g0.proxies@[j], proxy_id)
                                    && g0.proxies@[j].token == t) by {
                            assert((exists|j: int| 0 <= j < i + 1 && is_target(#[trigger] g0.proxies@[j], proxy_id)
                                    && g0.proxies@[j].token == t)
                                == (exists|j: int| 0 <= j < i && is_target(#[trigger] g0.proxies@[j], proxy_id)
                                    && g0.proxies@[j].token == t)) by {
                                if exists|j: int| 0 <= j < i + 1 && is_target(#[trigger] g0.proxies@[j], proxy_id)
                                    && g0.proxies@[j].token == t {
                                    let j = choose|j: int| 0 <= j < i + 1
                                        && is_target(#[trigger] g0.proxies@[j], proxy_id)
                                        && g0.proxies@[j].token == t;
                                    assert(j != i);
                                }
                            }
                        }
                    }
                }
            }
            i += 1;
        }
        proof {
            // relate the loop's facts to the caller's pre-state
            assert forall|x: Seq<char>| x != message_id@ implies
                (#[trigger] self.has_entry(x)) == g0.has_entry(x) by {
                if self.has_entry(x) {
                    let e = choose|e: int| 0 <= e < self.inflight@.len() && self.inflight@[e].id@ == x;
                    assert(e < g0.inflight@.len());
                    if g0.inflight@[e].id@ != message_id@ {
                        assert(self.inflight@[e] == g0.inflight@[e]);
                    } else {
                        assert(self.inflight@[e].id@ == message_id@);
                        assert(false);
                    }
                }
                if g0.has_entry(x) {
                    let e = choose|e: int| 0 <= e < g0.inflight@.len() && g0.inflight@[e].id@ == x;
                    assert(self.inflight@[e] == g0.inflight@[e]);
                    assert(self.has_entry(self.inflight@[e].id@));
                }
            }
            assert forall|x: Seq<char>| x != message_id@ && g0.has_entry(x) implies
                entry_at(self.inflight@, x) == entry_at(g0.inflight@, x) by {
                let e = choose|e: int| 0 <= e < g0.inflight@.len() && g0.inflight@[e].id@ == x;
                assert(self.inflight@[e] == g0.inflight@[e]);
                lemma_entry_at_index(g0.inflight@, x, e);
                lemma_entry_at_index(self.inflight@, x, e);
            }
        }
        if sent {
            proof {
                assert(any_target(g0.proxies@, proxy_id));
            }
            let ghost before_pending = *self;
            if let Some(sess) = &mut self.conns[token.0] {
                let ghost ps = *sess;
                match find_pending_idx(&sess.pending_ids, message_id) {
                    Some(_) => {
                        proof {
                            assert(sess.has_pending(message_id@));
                        }
                    },
                    None => {
                        sess.pending_ids.push(message_id.clone());
                        proof {
                            assert(sess.pending_ids@.drop_last() =~= ps.pending_ids@);
                            assert(sess.has_pending(message_id@)) by {
                                assert(sess.pending_ids@[sess.pending_ids@.len() - 1]@ == message_id@);
                            }
                            assert forall|x: Seq<char>| x != message_id@ implies
                                #[trigger] sess.has_pending(x) == ps.has_pending(x) by {
                                if sess.has_pending(x) {
                                    let k = choose|k: int| 0 <= k < sess.pending_ids@.len() && sess.pending_ids@[k]@ == x;
                                    assert(k < ps.pending_ids@.len());
                                    assert(ps.pending_ids@[k]@ == x);
                                }
                                if ps.has_pending(x) {
                                    let k = choose|k: int| 0 <= k < ps.pending_ids@.len() && ps.pending_ids@[k]@ == x;
                                    assert(sess.pending_ids@[k]@ == x);
                                }
                            }
                            assert(sess.wf()) by {
                                assert forall|a: int, b: int| 0 <= a < b < sess.pending_ids@.len() implies
                                    sess.pending_ids@[a]@ != sess.pending_ids@[b]@ by {
                                    if b < sess.pending_ids@.len() - 1 {
                                        assert(ps.pending_ids@[a]@ != ps.pending_ids@[b]@);
                                    } else {
                                        assert(ps.pending_ids@[a]@ != message_id@);
                                    }
                                }
                            }
                        }
                    },
                }
            }
            proof {
                assert forall|c: int| 0 <= c < self.conns@.len() implies
                    (match #[trigger] self.conns@[c] { Some(s) => s.wf(), None => true }) by {
                    if c != token.0 as int {
                        assert(self.conns@[c] == before_pending.conns@[c]);
                    }
                }
                assert(self.proxies == before_pending.proxies);
                assert(self.inflight == before_pending.inflight);
                assert(self.state == before_pending.state);
                assert forall|x: Seq<char>| x != message_id@ implies
                    (#[trigger] self.has_entry(x)) == g.has_entry(x) by {
                    assert(self.has_entry(x) == before_pending.has_entry(x)) by {
                        if self.has_entry(x) {
                            let e = choose|e: int| 0 <= e < self.inflight@.len() && self.inflight@[e].id@ == x;
                            assert(before_pending.inflight@[e].id@ == x);
                        }
                        if before_pending.has_entry(x) {
                            let e = choose|e: int| 0 <= e < before_pending.inflight@.len() && before_pending.inflight@[e].id@ == x;
                            assert(self.inflight@[e].id@ == x);
                        }
                    }
                    assert(g0.has_entry(x) == g.has_entry(x)) by {
                        if g0.has_entry(x) {
                            let e = choose|e: int| 0 <= e < g0.inflight@.len() && g0.inflight@[e].id@ == x;
                            assert(g.inflight@[e].id@ == x);
                        }
                        if g.has_entry(x) {
                            let e = choose|e: int| 0 <= e < g.inflight@.len() && g.inflight@[e].id@ == x;
                            assert(g0.inflight@[e].id@ == x);
                        }
                    }
                }
                assert forall|x: Seq<char>| x != message_id@ && g.has_entry(x) implies
                    entry_at(self.inflight@, x) == entry_at(g.inflight@, x) by {
                    assert(g0.has_entry(x));
                    assert(entry_at(before_pending.inflight@, x) == entry_at(g0.inflight@, x));
                    assert(self.inflight@ == before_pending.inflight@);
                    assert(g.inflight@ == g0.inflight@);
                }
                assert(self.has_entry(message_id@));
                // the final token set is the old entry's plus all targets'
                let ne = entry_at(self.inflight@, message_id@);
                assert forall|t: u32| #[trigger] ne.has_token(t)
                    == dispatched_tokens(g, message_id@, proxy_id, t) by {
                    assert(ne.has_token(t) == (
                        (g0.has_entry(message_id@) && entry_at(g0.inflight@, message_id@).has_token(t))
                        || exists|j: int| 0 <= j < g0.proxies@.len()
                            && is_target(#[trigger] g0.proxies@[j], proxy_id)
                            && g0.proxies@[j].token == t));
                }
            }
        } else {
            proof {
                assert(!any_target(g0.proxies@, proxy_id));
                assert(*self == g0);
            }
            self.reply(token, ConfigMessageAnswer::new(
                message_id.clone(),
                ConfigMessageStatus::Error,
                String::new(),
                None,
            ));
            proof {
                assert(self.inflight == g.inflight);
                assert forall|x: Seq<char>| x != message_id@ implies
                    (#[trigger] self.has_entry(x)) == g.has_entry(x) by {
                    if self.has_entry(x) {
                        let e = choose|e: int| 0 <= e < self.inflight@.len() && self.inflight@[e].id@ == x;
                        assert(g.inflight@[e].id@ == x);
                    }
                    if g.has_entry(x) {
                        let e = choose|e: int| 0 <= e < g.inflight@.len() && g.inflight@[e].id@ == x;
                        assert(self.inflight@[e].id@ == x);
                    }
                }
                assert forall|x: Seq<char>| x != message_id@ && g.has_entry(x) implies
                    entry_at(self.inflight@, x) == entry_at(g.inflight@, x) by {
                    assert(self.inflight@ == g.inflight@);
                }
            }
        }
    }
}

/// The aggregated note kept when a worker answers with an error.
pub open spec fn fail_note(wid: u32, msg: Seq<char>) -> Seq<char> {
    "worker "@ + dec_str(wid as int) + ": "@ + msg
}

/// The entry tracking `id`, where one exists.
pub open spec fn entry_at(s: Seq<FanOut>, id: Seq<char>) -> FanOut {
    s[choose|i: int| 0 <= i < s.len() && s[i].id@ == id]
}

/// Under unique entry ids, `entry_at` picks the one entry with that id.
pub proof fn lemma_entry_at_index(s: Seq<FanOut>, id: Seq<char>, e: int)
    requires
        0 <= e < s.len(),
        s[e].id@ == id,
        forall|a: int, b: int| 0 <= a < b < s.len() ==> s[a].id@ != s[b].id@,
    ensures
        entry_at(s, id) == s[e],
{
    assert(0 <= e < s.len() && s[e].id@ == id);
    let ch = choose|i: int| 0 <= i < s.len() && s[i].id@ == id;
    if ch < e {
        assert(s[ch].id@ != s[e].id@);
    } else if ch > e {
        assert(s[e].id@ != s[ch].id@);
    }
}

/// The effect on one session of completing request `id`: a session holding
/// the id pending receives exactly one terminal answer for it and stops
/// holding it; any other session is untouched.
pub open spec fn completed_session(os: ClientSession, ns: ClientSession, id: Seq<char>, status: ConfigMessageStatus, message: Seq<char>) -> bool {
    if os.has_pending(id) {
        &&& ns.outbox@.len() == os.outbox@.len() + 1
        &&& ns.outbox@.drop_last() == os.outbox@
        &&& ns.outbox@.last().id@ == id
        &&& ns.outbox@.last().status == status
        &&& status.spec_is_terminal()
        &&& ns.outbox@.last().message@ == message
        &&& !ns.has_pending(id)
        &&& forall|x: Seq<char>| x != id ==> #[trigger] ns.has_pending(x) == os.has_pending(x)
    } else {
        ns == os
    }
}

impl CommandServer {
    /// Retires one worker reply: the worker stops owing the id and its token
    /// leaves the fan-out entry. An error answer is aggregated into the
    /// entry. When the entry drains, it is removed and every session holding
    /// the id pending receives exactly one terminal answer: `Okay` when all
    /// workers answered so, otherwise `Error` with the collected notes.
    /// Non-terminal replies, unknown tokens and ids the worker does not owe
    /// change nothing.
    #[verifier::rlimit(100)]
    pub fn handle_worker_answer(&mut self, worker_token: u32, answer: &OrderMessageAnswer)
        requires
            old(self).wf(),
        ensures
            final(self).wf(),
            final(self).sock_fd == old(self).sock_fd,
            final(self).buffer_size == old(self).buffer_size,
            final(self).max_buffer_size == old(self).max_buffer_size,
            final(self).state == old(self).state,
            final(self).next_id == old(self).next_id,
            final(self).token_count == old(self).token_count,
            final(self).must_stop == old(self).must_stop,
            final(self).conns@.len() == old(self).conns@.len(),
            final(self).proxies@.len() == old(self).proxies@.len(),
            !(answer.status.is_terminal()
                && exists|j: int| 0 <= j < old(self).proxies@.len()
                    && (#[trigger] old(self).proxies@[j]).token == worker_token
                    && old(self).proxies@[j].owes(answer.id@))
                ==> *final(self) == *old(self),
            (answer.status.is_terminal()
                && exists|j: int| 0 <= j < old(self).proxies@.len()
                    && (#[trigger] old(self).proxies@[j]).token == worker_token
                    && old(self).proxies@[j].owes(answer.id@)) ==> {
                let oe = entry_at(old(self).inflight@, answer.id@);
                let term_status = if oe.all_ok && answer.status == ConfigMessageStatus::Okay {
                    ConfigMessageStatus::Okay
                } else {
                    ConfigMessageStatus::Error
                };
                let term_msg = oe.messages@ + (if answer.status == ConfigMessageStatus::Okay {
                    Seq::<char>::empty()
                } else {
                    fail_note(old(self).proxies@[choose|j: int|
                        0 <= j < old(self).proxies@.len()
                        && old(self).proxies@[j].token == worker_token] .id, answer.message@)
                });
                &&& forall|j: int| 0 <= j < old(self).proxies@.len() ==> {
                    let ow = #[trigger] old(self).proxies@[j];
                    let nw = final(self).proxies@[j];
                    if ow.token == worker_token {
                        &&& nw.id == ow.id && nw.pid == ow.pid && nw.fd == ow.fd
                        &&& nw.token == ow.token && nw.run_state == ow.run_state
                        &&& nw.outbox == ow.outbox
                        &&& !nw.owes(answer.id@)
                        &&& nw.inflight@.len() == ow.inflight@.len() - 1
                        &&& forall|x: Seq<char>| x != answer.id@ ==> #[trigger] nw.owes(x) == ow.owes(x)
                    } else {
                        nw == ow
                    }
                }
                &&& forall|x: Seq<char>| x != answer.id@
                    ==> (#[trigger] final(self).has_entry(x)) == old(self).has_entry(x)
                &&& forall|x: Seq<char>| x != answer.id@ && old(self).has_entry(x)
                    ==> entry_at(final(self).inflight@, x) == entry_at(old(self).inflight@, x)
                &&& if oe.tokens@.len() == 1 {
                    // last owing worker: the id completes
                    &&& !final(self).has_entry(answer.id@)
                    &&& forall|c: int| 0 <= c < old(self).conns@.len()
                        ==> match (#[trigger] old(self).conns@[c], final(self).conns@[c]) {
                            (Some(os), Some(ns)) => completed_session(os, ns, answer.id@, term_status, term_msg),
                            (None, None) => true,
                            _ => false,
                        }
                } else {
                    // the entry survives: the reply is folded into its
                    // aggregation and the worker's token leaves its set
                    &&& final(self).has_entry(answer.id@)
                    &&& final(self).conns == old(self).conns
                    &&& ({
                        let ne = entry_at(final(self).inflight@, answer.id@);
                        &&& ne.all_ok == (oe.all_ok && answer.status == ConfigMessageStatus::Okay)
                        &&& ne.messages@ == term_msg
                        &&& forall|t: u32| #[trigger] ne.has_token(t)
                            == (oe.has_token(t) && t != worker_token)
                    })
                }
            },
    {
        let ghost g = *self;
        if !answer.status.is_terminal() {
            return;
        }
        let widx = match find_worker_idx(&self.proxies, worker_token) {
            Some(w) => w,
            None => {
                return;
            },
        };
        let kidx = match find_key_idx(&self.proxies[widx].inflight, &answer.id) {
            Some(k) => k,
            None => {
                proof {
                    assert forall|j: int|
                        0 <= j < g.proxies@.len() && (#[trigger] g.proxies@[j]).token == worker_token implies
                        !g.proxies@[j].owes(answer.id@) by {
                        if j != widx as int {
                            assert(g.proxies@[widx as int].token == worker_token);
                        }
                    }
                }
                return;
            },
        };
        proof {
            assert(g.proxies@[widx as int].owes(answer.id@)) by {
                assert(g.proxies@[widx as int].inflight@[kidx as int].0@ == answer.id@);
            }
            assert(g.has_entry(answer.id@)) by {
                assert(g.has_entry(g.proxies@[widx as int].inflight@[kidx as int].0@));
            }
        }
        let eidx = match find_entry_idx(&self.inflight, &answer.id) {
            Some(e) => e,
            None => {
                proof {
                    assert(false);
                }
                return;
            },
        };
        proof {
            assert(g.inflight@[eidx as int].has_token(g.proxies@[widx as int].token));
            // the chosen index in `entry_at` is this one, by id uniqueness
            assert(entry_at(g.inflight@, answer.id@) == g.inflight@[eidx as int]) by {
                let ch = choose|i: int| 0 <= i < g.inflight@.len() && g.inflight@[i].id@ == answer.id@;
                assert(g.inflight@[eidx as int].id@ == answer.id@);
                assert(ch == eidx as int);
            }
            assert((choose|j: int| 0 <= j < g.proxies@.len() && g.proxies@[j].token == worker_token)
                == widx as int) by {
                assert(g.proxies@[widx as int].token == worker_token);
                let ch = choose|j: int| 0 <= j < g.proxies@.len() && g.proxies@[j].token == worker_token;
                if ch != widx as int {
                    assert(g.proxies@[ch].token != g.proxies@[widx as int].token);
                }
            }
        }
        let tidx = match find_token_idx(&self.inflight[eidx].tokens, worker_token) {
            Some(t) => t,
            None => {
                proof {
                    assert(false);
                }
                return;
            },
        };
        // the worker stops owing the id
        let ghost pw = self.proxies@[widx as int];
        self.proxies[widx].inflight.remove(kidx);
        proof {
            let nw = self.proxies@[widx as int];
            assert(nw.inflight@ == pw.inflight@.remove(kidx as int));
            assert forall|x: Seq<char>| x != answer.id@ implies #[trigger] nw.owes(x) == pw.owes(x) by {
                if nw.owes(x) {
                    let k = choose|k: int| 0 <= k < nw.inflight@.len() && nw.inflight@[k].0@ == x;
                    assert(nw.inflight@[k] == if k < kidx as int { pw.inflight@[k] } else { pw.inflight@[k + 1] });
                }
                if pw.owes(x) {
                    let k = choose|k: int| 0 <= k < pw.inflight@.len() && pw.inflight@[k].0@ == x;
                    assert(k != kidx as int);
                    if k < kidx as int {
                        assert(nw.inflight@[k].0@ == x);
                    } else {
                        assert(nw.inflight@[k - 1].0@ == x);
                    }
                }
            }
            assert(!nw.owes(answer.id@)) by {
                if nw.owes(answer.id@) {
                    let k = choose|k: int| 0 <= k < nw.inflight@.len() && nw.inflight@[k].0@ == answer.id@;
                    if k < kidx as int {
                        assert(pw.inflight@[k].0@ == pw.inflight@[kidx as int].0@);
                        assert(false);
                    } else {
                        assert(pw.inflight@[k + 1].0@ == pw.inflight@[kidx as int].0@);
                        assert(false);
                    }
                }
            }
            assert(nw.wf()) by {
                assert forall|a: int, b: int| 0 <= a < b < nw.inflight@.len() implies
                    nw.inflight@[a].0@ != nw.inflight@[b].0@ by {
                    assert(nw.inflight@[a] == if a < kidx as int { pw.inflight@[a] } else { pw.inflight@[a + 1] });
                    assert(nw.inflight@[b] == if b < kidx as int { pw.inflight@[b] } else { pw.inflight@[b + 1] });
                }
            }
        }
        // fold the reply into the entry and drop the worker's token
        let wid = self.proxies[widx].id;
        let ok = match answer.status {
            ConfigMessageStatus::Okay => true,
            _ => false,
        };
        if !ok {
            let mut note = fmt_id("worker ", wid as usize);
            note.append(": ");
            note.append(answer.message.as_str());
            proof {
                assert(note@ == fail_note(wid, answer.message@));
            }
            self.inflight[eidx].all_ok = false;
            self.inflight[eidx].messages.append(note.as_str());
        }
        let ghost pe = g.inflight@[eidx as int];
        let ghost me = self.inflight@[eidx as int];
        proof {
            assert(me.id@ == pe.id@ && me.tokens == pe.tokens);
            assert(me.all_ok == (pe.all_ok && ok));
            assert(me.messages@ == pe.messages@ + (if ok { Seq::<char>::empty() } else { fail_note(wid, answer.message@) })) by {
                if ok {
                    assert(pe.messages@ + Seq::<char>::empty() =~= pe.messages@);
                }
            }
        }
        self.inflight[eidx].tokens.remove(tidx);
        proof {
            let ne = self.inflight@[eidx as int];
            assert(ne.tokens@ == me.tokens@.remove(tidx as int));
            assert forall|t: u32| #[trigger] ne.has_token(t) == (pe.has_token(t) && t != worker_token) by {
                if ne.tokens@.contains(t) {
                    let k = choose|k: int| 0 <= k < ne.tokens@.len() && ne.tokens@[k] == t;
                    assert(ne.tokens@[k] == if k < tidx as int { me.tokens@[k] } else { me.tokens@[k + 1] });
                    assert(pe.tokens@.contains(t));
                    assert(t != worker_token) by {
                        if k < tidx as int {
                            assert(me.tokens@[k] != me.tokens@[tidx as int]);
                        } else {
                            assert(me.tokens@[k + 1] != me.tokens@[tidx as int]);
                        }
                    }
                }
                if pe.has_token(t) && t != worker_token {
                    let k = choose|k: int| 0 <= k < pe.tokens@.len() && pe.tokens@[k] == t;
                    assert(k != tidx as int);
                    if k < tidx as int {
                        assert(ne.tokens@[k] == t);
                    } else {
                        assert(ne.tokens@[k - 1] == t);
                    }
                }
            }
            assert(ne.tokens@.len() == pe.tokens@.len() - 1);
        }
        let drained = self.inflight[eidx].tokens.len() == 0;
        if drained {
            let status = if self.inflight[eidx].all_ok {
                ConfigMessageStatus::Okay
            } else {
                ConfigMessageStatus::Error
            };
            let msg = self.inflight[eidx].messages.clone();
            self.inflight.remove(eidx);
            proof {
                let ghost mids = *self;
                assert(mids.inflight@ == g.inflight@.remove(eidx as int));
                assert forall|x: Seq<char>| x != answer.id@ implies
                    #[trigger] mids.has_entry(x) == g.has_entry(x) by {
                    if mids.has_entry(x) {
                        let e2 = choose|e2: int| 0 <= e2 < mids.inflight@.len() && mids.inflight@[e2].id@ == x;
                        assert(mids.inflight@[e2] == if e2 < eidx as int { g.inflight@[e2] } else { g.inflight@[e2 + 1] });
                    }
                    if g.has_entry(x) {
                        let e2 = choose|e2: int| 0 <= e2 < g.inflight@.len() && g.inflight@[e2].id@ == x;
                        assert(e2 != eidx as int);
                        if e2 < eidx as int {
                            assert(mids.inflight@[e2].id@ == x);
                        } else {
                            assert(mids.inflight@[e2 - 1].id@ == x);
                        }
                    }
                }
                assert(!mids.has_entry(answer.id@)) by {
                    if mids.has_entry(answer.id@) {
                        let e2 = choose|e2: int| 0 <= e2 < mids.inflight@.len() && mids.inflight@[e2].id@ == answer.id@;
                        if e2 < eidx as int {
                            assert(g.inflight@[e2].id@ == g.inflight@[eidx as int].id@);
                            assert(false);
                        } else {
                            assert(g.inflight@[e2 + 1].id@ == g.inflight@[eidx as int].id@);
                            assert(false);
                        }
                    }
                }
                assert forall|x: Seq<char>| x != answer.id@ && g.has_entry(x) implies
                    entry_at(mids.inflight@, x) == entry_at(g.inflight@, x) by {
                    let e2 = choose|e2: int| 0 <= e2 < g.inflight@.len() && g.inflight@[e2].id@ == x;
                    lemma_entry_at_index(g.inflight@, x, e2);
                    assert(e2 != eidx as int);
                    if e2 < eidx as int {
                        assert(mids.inflight@[e2] == g.inflight@[e2]);
                        lemma_entry_at_index(mids.inflight@, x, e2);
                    } else {
                        assert(mids.inflight@[e2 - 1] == g.inflight@[e2]);
                        lemma_entry_at_index(mids.inflight@, x, e2 - 1);
                    }
                }
                // the drained entry held only this worker's token, so no
                // other worker owes the id
                assert forall|j: int| 0 <= j < self.proxies@.len() implies
                    !(#[trigger] self.proxies@[j]).owes(answer.id@) by {
                    if j != widx as int {
                        assert(self.proxies@[j] == g.proxies@[j]);
                        assert(g.inflight@[eidx as int].has_token(g.proxies@[j].token)
                            == g.proxies@[j].owes(answer.id@));
                        if g.proxies@[j].owes(answer.id@) {
                            assert(pe.has_token(g.proxies@[j].token));
                            assert(pe.has_token(worker_token));
                            let k1 = choose|k: int| 0 <= k < pe.tokens@.len() && pe.tokens@[k] == g.proxies@[j].token;
                            let k2 = choose|k: int| 0 <= k < pe.tokens@.len() && pe.tokens@[k] == worker_token;
                            assert(pe.tokens@.len() == 1);
                            assert(k1 == 0 && k2 == 0);
                            assert(g.proxies@[j].token == worker_token);
                            assert(g.proxies@[widx as int].token == worker_token);
                            assert(false);
                        }
                    }
                }
                assert(self.wf()) by {
                    assert forall|e2: int, j: int|
                        0 <= e2 < self.inflight@.len() && 0 <= j < self.proxies@.len() implies
                        (#[trigger] self.inflight@[e2].has_token(self.proxies@[j].token)
                            == self.proxies@[j].owes(self.inflight@[e2].id@)) by {
                        let olde = if e2 < eidx as int { e2 } else { e2 + 1 };
                        assert(self.inflight@[e2] == g.inflight@[olde]);
                        assert(self.inflight@[e2].id@ != answer.id@);
                        if j == widx as int {
                            assert(self.proxies@[j].owes(self.inflight@[e2].id@)
                                == g.proxies@[j].owes(self.inflight@[e2].id@));
                            assert(self.proxies@[j].token == g.proxies@[j].token);
                        } else {
                            assert(self.proxies@[j] == g.proxies@[j]);
                        }
                    }
                    assert forall|e2: int, t: u32|
                        0 <= e2 < self.inflight@.len() && #[trigger] self.inflight@[e2].has_token(t) implies
                        exists|j: int| 0 <= j < self.proxies@.len() && self.proxies@[j].token == t by {
                        let olde = if e2 < eidx as int { e2 } else { e2 + 1 };
                        assert(g.inflight@[olde].has_token(t));
                        let j = choose|j: int| 0 <= j < g.proxies@.len() && g.proxies@[j].token == t;
                        assert(self.proxies@[j].token == t);
                    }
                    assert forall|j: int, k: int|
                        0 <= j < self.proxies@.len() && 0 <= k < self.proxies@[j].inflight@.len() implies
                        self.has_entry((#[trigger] self.proxies@[j].inflight@[k]).0@) by {
                        let x = self.proxies@[j].inflight@[k].0@;
                        if j == widx as int {
                            assert(self.proxies@[j].owes(x));
                            assert(x != answer.id@);
                            assert(g.proxies@[j].owes(x));
                            let k2 = choose|k2: int| 0 <= k2 < g.proxies@[j].inflight@.len() && g.proxies@[j].inflight@[k2].0@ == x;
                            assert(g.has_entry(g.proxies@[j].inflight@[k2].0@));
                        } else {
                            assert(self.proxies@[j] == g.proxies@[j]);
                            assert(g.has_entry(g.proxies@[j].inflight@[k].0@));
                            assert(x != answer.id@) by {
                                if x == answer.id@ {
                                    assert(g.proxies@[j].owes(answer.id@));
                                    assert(false);
                                }
                            }
                        }
                        assert(self.has_entry(x));
                    }
                    assert forall|e2: int, f2: int| 0 <= e2 < f2 < self.inflight@.len() implies
                        self.inflight@[e2].id@ != self.inflight@[f2].id@ by {
                        let o1 = if e2 < eidx as int { e2 } else { e2 + 1 };
                        let o2 = if f2 < eidx as int { f2 } else { f2 + 1 };
                        assert(self.inflight@[e2] == g.inflight@[o1]);
                        assert(self.inflight@[f2] == g.inflight@[o2]);
                    }
                    assert forall|e2: int| 0 <= e2 < self.inflight@.len() implies
                        (#[trigger] self.inflight@[e2]).wf() by {
                        let olde = if e2 < eidx as int { e2 } else { e2 + 1 };
                        assert(self.inflight@[e2] == g.inflight@[olde]);
                    }
                }
            }
            // complete the id on every session that awaits it
            let mut c: usize = 0;
            let ghost mids = *self;
            while c < self.conns.len()
                invariant
                    self.wf(),
                    mids.wf(),
                    c <= self.conns@.len(),
                    self.conns@.len() == mids.conns@.len(),
                    *self == (CommandServer { conns: self.conns, ..mids }),
                    status.spec_is_terminal(),
                    forall|d: int| c <= d < mids.conns@.len() ==> #[trigger] self.conns@[d] == mids.conns@[d],
                    forall|d: int| 0 <= d < c ==> match (#[trigger] mids.conns@[d], self.conns@[d]) {
                        (Some(os), Some(ns)) => completed_session(os, ns, answer.id@, status, msg@),
                        (None, None) => true,
                        _ => false,
                    },
                decreases self.conns@.len() - c,
            {
                let ghost pit = *self;
                if let Some(sess) = &mut self.conns[c] {
                    let ghost ps = *sess;
                    match find_pending_idx(&sess.pending_ids, &answer.id) {
                        Some(p) => {
                            sess.pending_ids.remove(p);
                            sess.outbox.push(ConfigMessageAnswer::new(
                                answer.id.clone(),
                                status,
                                msg.clone(),
                                None,
                            ));
                            proof {
                                assert(sess.outbox@.drop_last() =~= ps.outbox@);
                                assert(sess.pending_ids@ == ps.pending_ids@.remove(p as int));
                                assert forall|x: Seq<char>| x != answer.id@ implies
                                    #[trigger] sess.has_pending(x) == ps.has_pending(x) by {
                                    if sess.has_pending(x) {
                                        let k = choose|k: int| 0 <= k < sess.pending_ids@.len() && sess.pending_ids@[k]@ == x;
                                        assert(sess.pending_ids@[k] == if k < p as int { ps.pending_ids@[k] } else { ps.pending_ids@[k + 1] });
                                    }
                                    if ps.has_pending(x) {
                                        let k = choose|k: int| 0 <= k < ps.pending_ids@.len() && ps.pending_ids@[k]@ == x;
                                        assert(k != p as int);
                                        if k < p as int {
                                            assert(sess.pending_ids@[k]@ == x);
                                        } else {
                                            assert(sess.pending_ids@[k - 1]@ == x);
                                        }
                                    }
                                }
                                assert(!sess.has_pending(answer.id@)) by {
                                    if sess.has_pending(answer.id@) {
                                        let k = choose|k: int| 0 <= k < sess.pending_ids@.len() && sess.pending_ids@[k]@ == answer.id@;
                                        if k < p as int {
                                            assert(ps.pending_ids@[k]@ == ps.pending_ids@[p as int]@);
                                            assert(false);
                                        } else {
                                            assert(ps.pending_ids@[k + 1]@ == ps.pending_ids@[p as int]@);
                                            assert(false);
                                        }
                                    }
                                }
                                assert(sess.wf()) by {
                                    assert forall|a: int, b: int| 0 <= a < b < sess.pending_ids@.len() implies
                                        sess.pending_ids@[a]@ != sess.pending_ids@[b]@ by {
                                        assert(sess.pending_ids@[a] == if a < p as int { ps.pending_ids@[a] } else { ps.pending_ids@[a + 1] });
                                        assert(sess.pending_ids@[b] == if b < p as int { ps.pending_ids@[b] } else { ps.pending_ids@[b + 1] });
                                    }
                                }
                                assert(ps.has_pending(answer.id@)) by {
                                    assert(ps.pending_ids@[p as int]@ == answer.id@);
                                }
                            }
                        },
                        None => {
                            proof {
                                assert(!ps.has_pending(answer.id@));
                            }
                        },
                    }
                }
                proof {
                    assert(self.proxies == pit.proxies);
                    assert(self.inflight == pit.inflight);
                    assert(self.state == pit.state);
                    assert forall|d: int| 0 <= d < self.conns@.len() implies
                        (match #[trigger] self.conns@[d] { Some(s) => s.wf(), None => true }) by {
                        if d != c as int {
                            assert(self.conns@[d] == pit.conns@[d]);
                        }
                    }
                }
                c += 1;
            }
            proof {
                assert(self.inflight == mids.inflight);
                assert forall|x: Seq<char>| x != answer.id@ implies
                    (#[trigger] self.has_entry(x)) == g.has_entry(x) by {
                    assert(self.has_entry(x) == mids.has_entry(x)) by {
                        if self.has_entry(x) {
                            let e2 = choose|e2: int| 0 <= e2 < self.inflight@.len() && self.inflight@[e2].id@ == x;
                            assert(mids.inflight@[e2].id@ == x);
                        }
                        if mids.has_entry(x) {
                            let e2 = choose|e2: int| 0 <= e2 < mids.inflight@.len() && mids.inflight@[e2].id@ == x;
                            assert(self.inflight@[e2].id@ == x);
                        }
                    }
                }
                assert forall|x: Seq<char>| x != answer.id@ && g.has_entry(x) implies
                    entry_at(self.inflight@, x) == entry_at(g.inflight@, x) by {
                    assert(self.inflight@ == mids.inflight@);
                    assert(entry_at(mids.inflight@, x) == entry_at(g.inflight@, x));
                }
                assert(!self.has_entry(answer.id@)) by {
                    if self.has_entry(answer.id@) {
                        let e2 = choose|e2: int| 0 <= e2 < self.inflight@.len() && self.inflight@[e2].id@ == answer.id@;
                        assert(mids.inflight@[e2].id@ == answer.id@);
                        assert(mids.has_entry(answer.id@));
                    }
                }
            }
        } else {
            proof {
                assert(self.inflight@[eidx as int].tokens@.len() > 0);
                assert(self.has_entry(answer.id@)) by {
                    assert(self.inflight@[eidx as int].id@ == answer.id@);
                }
                assert forall|x: Seq<char>| x != answer.id@ implies
                    (#[trigger] self.has_entry(x)) == g.has_entry(x) by {
                    if self.has_entry(x) {
                        let e2 = choose|e2: int| 0 <= e2 < self.inflight@.len() && self.inflight@[e2].id@ == x;
                        assert(e2 != eidx as int);
                        assert(g.inflight@[e2].id@ == x);
                    }
                    if g.has_entry(x) {
                        let e2 = choose|e2: int| 0 <= e2 < g.inflight@.len() && g.inflight@[e2].id@ == x;
                        assert(e2 != eidx as int);
                        assert(self.inflight@[e2].id@ == x);
                    }
                }
                assert forall|x: Seq<char>| x != answer.id@ && g.has_entry(x) implies
                    entry_at(self.inflight@, x) == entry_at(g.inflight@, x) by {
                    let e2 = choose|e2: int| 0 <= e2 < g.inflight@.len() && g.inflight@[e2].id@ == x;
                    lemma_entry_at_index(g.inflight@, x, e2);
                    assert(e2 != eidx as int);
                    assert(self.inflight@[e2] == g.inflight@[e2]);
                    lemma_entry_at_index(self.inflight@, x, e2);
                }
                let ne = self.inflight@[eidx as int];
                assert(ne.all_ok == me.all_ok && ne.messages == me.messages && ne.id@ == me.id@);
                lemma_entry_at_index(self.inflight@, answer.id@, eidx as int);
                assert(self.wf()) by {
                    assert forall|e2: int, j: int|
                        0 <= e2 < self.inflight@.len() && 0 <= j < self.proxies@.len() implies
                        (#[trigger] self.inflight@[e2].has_token(self.proxies@[j].token)
                            == self.proxies@[j].owes(self.inflight@[e2].id@)) by {
                        if e2 != eidx as int {
                            assert(self.inflight@[e2] == g.inflight@[e2]);
                            assert(self.inflight@[e2].id@ != answer.id@) by {
                                assert(g.inflight@[eidx as int].id@ == answer.id@);
                            }
                            if j == widx as int {
                                assert(self.proxies@[j].owes(self.inflight@[e2].id@)
                                    == g.proxies@[j].owes(self.inflight@[e2].id@));
                                assert(self.proxies@[j].token == g.proxies@[j].token);
                            } else {
                                assert(self.proxies@[j] == g.proxies@[j]);
                            }
                        } else {
                            if j == widx as int {
                                assert(!ne.has_token(worker_token));
                                assert(self.proxies@[j].token == worker_token);
                                assert(!self.proxies@[j].owes(answer.id@));
                            } else {
                                assert(self.proxies@[j] == g.proxies@[j]);
                                assert(self.proxies@[j].token != worker_token);
                                assert(ne.has_token(self.proxies@[j].token)
                                    == pe.has_token(self.proxies@[j].token));
                            }
                        }
                    }
                    assert forall|e2: int, t: u32|
                        0 <= e2 < self.inflight@.len() && #[trigger] self.inflight@[e2].has_token(t) implies
                        exists|j: int| 0 <= j < self.proxies@.len() && self.proxies@[j].token == t by {
                        if e2 == eidx as int {
                            assert(pe.has_token(t));
                        } else {
                            assert(self.inflight@[e2] == g.inflight@[e2]);
                        }
                        assert(g.inflight@[e2].has_token(t));
                        let j = choose|j: int| 0 <= j < g.proxies@.len() && g.proxies@[j].token == t;
                        assert(self.proxies@[j].token == t);
                    }
                    assert forall|j: int, k: int|
                        0 <= j < self.proxies@.len() && 0 <= k < self.proxies@[j].inflight@.len() implies
                        self.has_entry((#[trigger] self.proxies@[j].inflight@[k]).0@) by {
                        let x = self.proxies@[j].inflight@[k].0@;
                        if j == widx as int {
                            assert(self.proxies@[j].owes(x));
                            if x != answer.id@ {
                                assert(g.proxies@[j].owes(x));
                                let k2 = choose|k2: int| 0 <= k2 < g.proxies@[j].inflight@.len() && g.proxies@[j].inflight@[k2].0@ == x;
                                assert(g.has_entry(g.proxies@[j].inflight@[k2].0@));
                            }
                        } else {
                            assert(self.proxies@[j] == g.proxies@[j]);
                            assert(g.has_entry(g.proxies@[j].inflight@[k].0@));
                        }
                        if x == answer.id@ {
                            assert(self.inflight@[eidx as int].id@ == answer.id@);
                        } else {
                            let e3 = choose|e3: int| 0 <= e3 < g.inflight@.len() && g.inflight@[e3].id@ == x;
                            assert(self.inflight@[e3].id@ == x) by {
                                if e3 == eidx as int {
                                } else {
                                    assert(self.inflight@[e3] == g.inflight@[e3]);
                                }
                            }
                        }
                    }
                    assert forall|e2: int| 0 <= e2 < self.inflight@.len() implies
                        (#[trigger] self.inflight@[e2]).wf() by {
                        if e2 != eidx as int {
                            assert(self.inflight@[e2] == g.inflight@[e2]);
                        } else {
                            assert forall|a: int, b: int| 0 <= a < b < ne.tokens@.len() implies
                                ne.tokens@[a] != ne.tokens@[b] by {
                                assert(ne.tokens@[a] == if a < tidx as int { me.tokens@[a] } else { me.tokens@[a + 1] });
                                assert(ne.tokens@[b] == if b < tidx as int { me.tokens@[b] } else { me.tokens@[b + 1] });
                            }
                        }
                    }
                }
            }
        }
    }

    /// Forgets a worker whose channel closed or failed: every id it still
    /// owed is retired as an error (draining fan-out entries and answering
    /// waiting sessions), then the record leaves the registry.
    pub fn remove_worker(&mut self, worker_token: u32)
        requires
            old(self).wf(),
        ensures
            final(self).wf(),
            final(self).sock_fd == old(self).sock_fd,
            final(self).buffer_size == old(self).buffer_size,
            final(self).max_buffer_size == old(self).max_buffer_size,
            final(self).state == old(self).state,
            final(self).next_id == old(self).next_id,
            final(self).token_count == old(self).token_count,
            final(self).must_stop == old(self).must_stop,
            final(self).conns@.len() == old(self).conns@.len(),
            forall|j: int| 0 <= j < final(self).proxies@.len()
                ==> (#[trigger] final(self).proxies@[j]).token != worker_token,
            !(exists|j: int| 0 <= j < old(self).proxies@.len()
                && (#[trigger] old(self).proxies@[j]).token == worker_token)
                ==> *final(self) == *old(self),
            (exists|j: int| 0 <= j < old(self).proxies@.len()
                && (#[trigger] old(self).proxies@[j]).token == worker_token)
                ==> exists|w: int| 0 <= w < old(self).proxies@.len()
                    && (#[trigger] old(self).proxies@[w]).token == worker_token
                    && final(self).proxies@ == old(self).proxies@.remove(w),
            // sessions only gain terminal error answers, for ids the dead
            // worker still owed, and pending ids only go away
            forall|c: int| 0 <= c < old(self).conns@.len()
                ==> match (#[trigger] old(self).conns@[c], final(self).conns@[c]) {
                    (Some(os), Some(ns)) => {
                        &&& ns.outbox@.len() >= os.outbox@.len()
                        &&& ns.outbox@.take(os.outbox@.len() as int) == os.outbox@
                        &&& forall|k: int| os.outbox@.len() <= k < ns.outbox@.len() ==> {
                            &&& (#[trigger] ns.outbox@[k]).status == ConfigMessageStatus::Error
                            &&& exists|j: int| 0 <= j < old(self).proxies@.len()
                                && (#[trigger] old(self).proxies@[j]).token == worker_token
                                && old(self).proxies@[j].owes(ns.outbox@[k].id@)
                        }
                        &&& forall|x: Seq<char>| #[trigger] ns.has_pending(x) ==> os.has_pending(x)
                    },
                    (None, None) => true,
                    _ => false,
                },
    {
        let ghost g = *self;
        let widx = match find_worker_idx(&self.proxies, worker_token) {
            Some(w) => w,
            None => {
                return;
            },
        };
        while self.proxies[widx].inflight.len() > 0
            invariant
                self.wf(),
                widx < self.proxies@.len(),
                self.proxies@.len() == g.proxies@.len(),
                self.proxies@[widx as int].token == worker_token,
                self.sock_fd == g.sock_fd,
                self.buffer_size == g.buffer_size,
                self.max_buffer_size == g.max_buffer_size,
                self.state == g.state,
                self.next_id == g.next_id,
                self.token_count == g.token_count,
                self.must_stop == g.must_stop,
                self.conns@.len() == g.conns@.len(),
                forall|j: int| 0 <= j < g.proxies@.len() && j != widx as int
                    ==> #[trigger] self.proxies@[j] == g.proxies@[j],
                forall|x: Seq<char>| #[trigger] self.proxies@[widx as int].owes(x)
                    ==> g.proxies@[widx as int].owes(x),
                forall|c: int| 0 <= c < g.conns@.len()
                    ==> match (#[trigger] g.conns@[c], self.conns@[c]) {
                        (Some(os), Some(ns)) => {
                            &&& ns.outbox@.len() >= os.outbox@.len()
                            &&& ns.outbox@.take(os.outbox@.len() as int) == os.outbox@
                            &&& forall|k: int| os.outbox@.len() <= k < ns.outbox@.len() ==> {
                                &&& (#[trigger] ns.outbox@[k]).status == ConfigMessageStatus::Error
                                &&& g.proxies@[widx as int].owes(ns.outbox@[k].id@)
                            }
                            &&& forall|x: Seq<char>| #[trigger] ns.has_pending(x) ==> os.has_pending(x)
                        },
                        (None, None) => true,
                        _ => false,
                    },
            decreases self.proxies@[widx as int].inflight@.len(),
        {
            let last = self.proxies[widx].inflight.len() - 1;
            let id = self.proxies[widx].inflight[last].0.clone();
            let ans = OrderMessageAnswer {
                id,
                status: ConfigMessageStatus::Error,
                message: String::new(),
            };
            proof {
                assert(self.proxies@[widx as int].owes(ans.id@)) by {
                    assert(self.proxies@[widx as int].inflight@[last as int].0@ == ans.id@);
                }
            }
            let ghost pit = *self;
            self.handle_worker_answer(worker_token, &ans);
            proof {
                assert(ans.status.is_terminal());
                assert(exists|j: int| 0 <= j < pit.proxies@.len()
                    && (#[trigger] pit.proxies@[j]).token == worker_token
                    && pit.proxies@[j].owes(ans.id@)) by {
                    assert(pit.proxies@[widx as int].token == worker_token
                        && pit.proxies@[widx as int].owes(ans.id@));
                }
                assert(self.proxies@[widx as int].inflight@.len()
                    < pit.proxies@[widx as int].inflight@.len());
                assert forall|j: int| 0 <= j < g.proxies@.len() && j != widx as int implies
                    #[trigger] self.proxies@[j] == g.proxies@[j] by {
                    assert(pit.proxies@[j].token != pit.proxies@[widx as int].token);
                    assert(self.proxies@[j] == pit.proxies@[j]);
                }
                assert(self.proxies@[widx as int].token == worker_token);
                assert(g.proxies@[widx as int].owes(ans.id@)) by {
                    assert(pit.proxies@[widx as int].owes(ans.id@));
                }
                assert forall|x: Seq<char>| #[trigger] self.proxies@[widx as int].owes(x) implies
                    g.proxies@[widx as int].owes(x) by {
                    assert(x != ans.id@);
                    assert(pit.proxies@[widx as int].owes(x));
                }
                assert forall|c: int| 0 <= c < g.conns@.len() implies
                    (match (#[trigger] g.conns@[c], self.conns@[c]) {
                        (Some(os), Some(ns)) => {
                            &&& ns.outbox@.len() >= os.outbox@.len()
                            &&& ns.outbox@.take(os.outbox@.len() as int) == os.outbox@
                            &&& forall|k: int| os.outbox@.len() <= k < ns.outbox@.len() ==> {
                                &&& (#[trigger] ns.outbox@[k]).status == ConfigMessageStatus::Error
                                &&& g.proxies@[widx as int].owes(ns.outbox@[k].id@)
                            }
                            &&& forall|x: Seq<char>| #[trigger] ns.has_pending(x) ==> os.has_pending(x)
                        },
                        (None, None) => true,
                        _ => false,
                    }) by {
                    match (g.conns@[c], pit.conns@[c], self.conns@[c]) {
                        (Some(os), Some(ms), Some(ns)) => {
                            if ns != ms {
                                // a completion appended one terminal error
                                assert(ns.outbox@.len() >= ms.outbox@.len());
                                assert(ns.outbox@.take(os.outbox@.len() as int) =~= os.outbox@) by {
                                    assert(ms.outbox@.take(os.outbox@.len() as int) == os.outbox@);
                                }
                                assert forall|k: int| os.outbox@.len() <= k < ns.outbox@.len() implies
                                    ((#[trigger] ns.outbox@[k]).status == ConfigMessageStatus::Error
                                        && g.proxies@[widx as int].owes(ns.outbox@[k].id@)) by {
                                    if k < ms.outbox@.len() {
                                        assert(ns.outbox@[k] == ms.outbox@[k]);
                                    } else {
                                        assert(ns.outbox@[k] == ns.outbox@.last());
                                        assert(ns.outbox@.last().id@ == ans.id@);
                                        assert(ns.outbox@.last().status == ConfigMessageStatus::Error);
                                    }
                                }
                            }
                        },
                        _ => {},
                    }
                }
            }
        }
        proof {
            // the worker owes nothing, so no entry carries its token
            assert forall|e: int| 0 <= e < self.inflight@.len() implies
                !(#[trigger] self.inflight@[e]).has_token(worker_token) by {
                assert(self.inflight@[e].has_token(self.proxies@[widx as int].token)
                    == self.proxies@[widx as int].owes(self.inflight@[e].id@));
            }
        }
        let ghost before = *self;
        self.proxies.remove(widx);
        proof {
            assert(self.proxies@ == before.proxies@.remove(widx as int));
            assert(self.proxies@ =~= g.proxies@.remove(widx as int));
            assert(g.proxies@[widx as int].token == worker_token);
            assert(0 <= (widx as int) && (widx as int) < g.proxies@.len()
                && g.proxies@[widx as int].token == worker_token
                && self.proxies@ == g.proxies@.remove(widx as int));
            assert forall|j: int| 0 <= j < self.proxies@.len() implies
                #[trigger] self.proxies@[j] == before.proxies@[if j < widx as int { j } else { j + 1 }] by {}
            assert forall|j: int| 0 <= j < self.proxies@.len() implies
                (#[trigger] self.proxies@[j]).token != worker_token by {
                if j < widx as int {
                    assert(before.proxies@[j].token != before.proxies@[widx as int].token);
                } else {
                    assert(before.proxies@[j + 1].token != before.proxies@[widx as int].token);
                }
            }
            assert(self.wf()) by {
                assert forall|i2: int, j: int| 0 <= i2 < j < self.proxies@.len() implies
                    self.proxies@[i2].token != self.proxies@[j].token by {
                    let o1 = if i2 < widx as int { i2 } else { i2 + 1 };
                    let o2 = if j < widx as int { j } else { j + 1 };
                    assert(self.proxies@[i2] == before.proxies@[o1]);
                    assert(self.proxies@[j] == before.proxies@[o2]);
                }
                assert forall|j: int| 0 <= j < self.proxies@.len() implies
                    (#[trigger] self.proxies@[j]).wf() by {
                    let o1 = if j < widx as int { j } else { j + 1 };
                    assert(self.proxies@[j] == before.proxies@[o1]);
                }
                assert forall|e: int, j: int|
                    0 <= e < self.inflight@.len() && 0 <= j < self.proxies@.len() implies
                    (#[trigger] self.inflight@[e].has_token(self.proxies@[j].token)
                        == self.proxies@[j].owes(self.inflight@[e].id@)) by {
                    let o1 = if j < widx as int { j } else { j + 1 };
                    assert(self.proxies@[j] == before.proxies@[o1]);
                }
                assert forall|e: int, t: u32|
                    0 <= e < self.inflight@.len() && #[trigger] self.inflight@[e].has_token(t) implies
                    exists|j: int| 0 <= j < self.proxies@.len() && self.proxies@[j].token == t by {
                    let j = choose|j: int| 0 <= j < before.proxies@.len() && before.proxies@[j].token == t;
                    assert(t != worker_token);
                    assert(j != widx as int);
                    if j < widx as int {
                        assert(self.proxies@[j].token == t);
                    } else {
                        assert(self.proxies@[j - 1].token == t);
                    }
                }
                assert forall|j: int, k: int|
                    0 <= j < self.proxies@.len() && 0 <= k < self.proxies@[j].inflight@.len() implies
                    self.has_entry((#[trigger] self.proxies@[j].inflight@[k]).0@) by {
                    let o1 = if j < widx as int { j } else { j + 1 };
                    assert(self.proxies@[j] == before.proxies@[o1]);
                    assert(before.has_entry(before.proxies@[o1].inflight@[k].0@));
                }
            }
        }
    }
}

/// The order wrapped by a saved frame; frames that carry no order count as
/// the no-op query `Metrics`.
pub open spec fn frame_order(m: ConfigMessage) -> OrderModel {
    match m.data {
        ConfigCommand::ProxyConfiguration(o) => o@,
        _ => OrderModel::Metrics,
    }
}

pub open spec fn frame_orders(s: Seq<ConfigMessage>) -> Seq<OrderModel> {
    s.map_values(|m: ConfigMessage| frame_order(m))
}

pub open spec fn outbox_orders(s: Seq<OrderMessage>) -> Seq<OrderModel> {
    s.map_values(|m: OrderMessage| m.order@)
}

pub open spec fn any_running(ws: Seq<Worker>) -> bool {
    exists|j: int| 0 <= j < ws.len() && ws[j].run_state == RunState::Running
}

/// Only outboxes differ between the two servers: well-formedness carries over.
proof fn lemma_wf_outbox_only(a: CommandServer, b: CommandServer)
    requires
        a.wf(),
        b.conns == a.conns,
        b.inflight == a.inflight,
        b.state == a.state,
        b.proxies@.len() == a.proxies@.len(),
        forall|j: int| 0 <= j < a.proxies@.len()
            ==> #[trigger] b.proxies@[j] == (Worker { outbox: b.proxies@[j].outbox, ..a.proxies@[j] }),
    ensures
        b.wf(),
{
    assert forall|j: int| 0 <= j < b.proxies@.len() implies
        (#[trigger] b.proxies@[j]).token == a.proxies@[j].token
        && b.proxies@[j].inflight == a.proxies@[j].inflight by {}
    assert forall|j: int| 0 <= j < b.proxies@.len() implies (#[trigger] b.proxies@[j]).wf() by {
        assert(a.proxies@[j].wf());
    }
    assert forall|e: int, j: int|
        0 <= e < b.inflight@.len() && 0 <= j < b.proxies@.len() implies
        (#[trigger] b.inflight@[e].has_token(b.proxies@[j].token)
            == b.proxies@[j].owes(b.inflight@[e].id@)) by {
        assert(a.inflight@[e].has_token(a.proxies@[j].token)
            == a.proxies@[j].owes(a.inflight@[e].id@));
    }
    assert forall|e: int, t: u32|
        0 <= e < b.inflight@.len() && #[trigger] b.inflight@[e].has_token(t) implies
        exists|j: int| 0 <= j < b.proxies@.len() && b.proxies@[j].token == t by {
        assert(a.inflight@[e].has_token(t));
        let j = choose|j: int| 0 <= j < a.proxies@.len() && a.proxies@[j].token == t;
        assert(b.proxies@[j].token == t);
    }
    assert forall|j: int, k: int|
        0 <= j < b.proxies@.len() && 0 <= k < b.proxies@[j].inflight@.len() implies
        b.has_entry((#[trigger] b.proxies@[j].inflight@[k]).0@) by {
        assert(a.has_entry(a.proxies@[j].inflight@[k].0@));
    }
}

impl CommandServer {
    /// The frames that `SaveState` writes: the replay orders of the current
    /// state wrapped as `ProxyConfiguration` messages under ids `SAVE-<n>`.
    /// Replaying them into an empty state reproduces the current one.
    pub fn save_state(&self) -> (frames: Vec<ConfigMessage>)
        requires
            self.wf(),
        ensures
            apply_seq(StateModel::empty(), frame_orders(frames@)) == self.state@,
            forall|k: int| 0 <= k < frames@.len() ==> {
                &&& (#[trigger] frames@[k]).id@ == "SAVE-"@ + dec_str(k)
                &&& frames@[k].proxy_id is None
                &&& frames@[k].data is ProxyConfiguration
            },
    {
        let orders = self.state.generate_orders();
        let mut frames: Vec<ConfigMessage> = Vec::new();
        let mut n: usize = 0;
        while n < orders.len()
            invariant
                n == frames@.len(),
                n <= orders@.len(),
                frame_orders(frames@) == order_models(orders@).take(n as int),
                forall|k: int| 0 <= k < frames@.len() ==> {
                    &&& (#[trigger] frames@[k]).id@ == "SAVE-"@ + dec_str(k)
                    &&& frames@[k].proxy_id is None
                    &&& frames@[k].data is ProxyConfiguration
                },
            decreases orders@.len() - n,
        {
            let ghost oldf = frames@;
            frames.push(ConfigMessage {
                id: fmt_id("SAVE-", n),
                data: ConfigCommand::ProxyConfiguration(orders[n].clone()),
                proxy_id: None,
            });
            proof {
                assert(frame_orders(frames@) =~= order_models(orders@).take(n as int + 1));
            }
            n += 1;
        }
        proof {
            assert(order_models(orders@).take(orders@.len() as int) =~= order_models(orders@));
        }
        frames
    }

    /// Reports the outcome of writing a save file: `Okay` with the path on
    /// success, `Error` when the file could not be written.
    pub fn save_state_result(&mut self, token: FrontToken, message_id: &String, path: &String, success: bool)
        requires
            old(self).wf(),
            token.0 < old(self).conns@.len(),
            old(self).conns@[token.0 as int] is Some,
        ensures
            final(self).wf(),
            replied(*old(self), *final(self), token.0 as int),
            last_answer(*final(self), token.0 as int).id@ == message_id@,
            last_answer(*final(self), token.0 as int).status
                == (if success { ConfigMessageStatus::Okay } else { ConfigMessageStatus::Error }),
            success ==> last_answer(*final(self), token.0 as int).message@ == "saved to "@ + path@,
            !success ==> last_answer(*final(self), token.0 as int).message@ == "could not open file"@,
    {
        if success {
            let msg = String::from_str("saved to ").concat(path.as_str());
            self.reply(token, ConfigMessageAnswer::new(
                message_id.clone(), ConfigMessageStatus::Okay, msg, None));
        } else {
            self.reply(token, ConfigMessageAnswer::new(
                message_id.clone(), ConfigMessageStatus::Error,
                String::from_str("could not open file"), None));
        }
    }

    /// Reports the outcome of a load: `Okay` after the state was rebuilt,
    /// `Error` when the file could not be read or parsed.
    pub fn load_state_result(&mut self, token: FrontToken, message_id: &String, success: bool)
        requires
            old(self).wf(),
            token.0 < old(self).conns@.len(),
            old(self).conns@[token.0 as int] is Some,
        ensures
            final(self).wf(),
            replied(*old(self), *final(self), token.0 as int),
            last_answer(*final(self), token.0 as int).id@ == message_id@,
            last_answer(*final(self), token.0 as int).status
                == (if success { ConfigMessageStatus::Okay } else { ConfigMessageStatus::Error }),
            last_answer(*final(self), token.0 as int).message@
                == (if success { "loaded the configuration"@ } else { "could not load state file"@ }),
    {
        if success {
            self.reply(token, ConfigMessageAnswer::new(
                message_id.clone(), ConfigMessageStatus::Okay,
                String::from_str("loaded the configuration"), None));
        } else {
            self.reply(token, ConfigMessageAnswer::new(
                message_id.clone(), ConfigMessageStatus::Error,
                String::from_str("could not load state file"), None));
        }
    }

    /// Rebuilds the saved state from decoded frames, applies the difference
    /// to the authoritative state, and queues every differential order to
    /// each running worker under ids `LOAD-STATE-<n>`. Returns the
    /// differential orders. Replies to these ids are not tracked: the
    /// fan-out map ignores them when they come back.
    pub fn load_state(&mut self, messages: &Vec<ConfigMessage>) -> (r: Vec<Order>)
        requires
            old(self).wf(),
        ensures
            final(self).wf(),
            final(self).state@ == apply_seq(StateModel::empty(), frame_orders(messages@)),
            apply_seq(old(self).state@, order_models(r@)) == final(self).state@,
            *final(self) == (CommandServer {
                state: final(self).state,
                proxies: final(self).proxies,
                ..*old(self)
            }),
            final(self).proxies@.len() == old(self).proxies@.len(),
            forall|j: int| 0 <= j < old(self).proxies@.len() ==> {
                let ow = #[trigger] old(self).proxies@[j];
                let nw = final(self).proxies@[j];
                if ow.run_state == RunState::Running {
                    &&& nw == (Worker { outbox: nw.outbox, ..ow })
                    &&& nw.outbox@.len() == ow.outbox@.len() + r@.len()
                    &&& nw.outbox@.take(ow.outbox@.len() as int) == ow.outbox@
                    &&& forall|k: int| 0 <= k < r@.len() ==> {
                        &&& (#[trigger] nw.outbox@[ow.outbox@.len() + k]).id@
                            == "LOAD-STATE-"@ + dec_str(k)
                        &&& nw.outbox@[ow.outbox@.len() + k].order == r@[k]
                    }
                } else {
                    nw == ow
                }
            },
    {
        let ghost g = *self;
        let mut new_state = ConfigState::new();
        let mut i: usize = 0;
        while i < messages.len()
            invariant
                i <= messages@.len(),
                new_state.wf(),
                new_state@ == apply_seq(StateModel::empty(), frame_orders(messages@).take(i as int)),
            decreases messages@.len() - i,
        {
            let ghost pres = new_state@;
            match &messages[i].data {
                ConfigCommand::ProxyConfiguration(o) => {
                    new_state.handle_order(o);
                },
                _ => {},
            }
            proof {
                assert(frame_orders(messages@).take(i as int + 1)
                    =~= frame_orders(messages@).take(i as int).push(frame_order(messages@[i as int])));
                lemma_apply_seq_push(StateModel::empty(), frame_orders(messages@).take(i as int),
                    frame_order(messages@[i as int]));
                assert(new_state@ == apply(pres, frame_order(messages@[i as int])));
            }
            i += 1;
        }
        proof {
            assert(frame_orders(messages@).take(messages@.len() as int) =~= frame_orders(messages@));
        }
        let r = self.state.diff(&new_state);
        // apply the difference to the authoritative state
        let mut n: usize = 0;
        while n < r.len()
            invariant
                n <= r@.len(),
                self.state.wf(),
                self.state@ == apply_seq(g.state@, order_models(r@).take(n as int)),
                apply_seq(g.state@, order_models(r@)) == new_state@,
                *self == (CommandServer { state: self.state, ..g }),
            decreases r@.len() - n,
        {
            let ghost pres = self.state@;
            self.state.handle_order(&r[n]);
            proof {
                assert(order_models(r@).take(n as int + 1)
                    =~= order_models(r@).take(n as int).push(order_models(r@)[n as int]));
                lemma_apply_seq_push(g.state@, order_models(r@).take(n as int), order_models(r@)[n as int]);
            }
            n += 1;
        }
        proof {
            assert(order_models(r@).take(r@.len() as int) =~= order_models(r@));
        }
        let ghost g1 = *self;
        // the frames every running worker receives, ids LOAD-STATE-<n>
        let mut added: Vec<OrderMessage> = Vec::new();
        let mut n2: usize = 0;
        while n2 < r.len()
            invariant
                n2 <= r@.len(),
                added@.len() == n2,
                forall|k: int| 0 <= k < n2 ==> {
                    &&& (#[trigger] added@[k]).id@ == "LOAD-STATE-"@ + dec_str(k)
                    &&& added@[k].order == r@[k]
                },
            decreases r@.len() - n2,
        {
            added.push(OrderMessage { id: fmt_id("LOAD-STATE-", n2), order: r[n2].clone() });
            n2 += 1;
        }
        // queue the difference to every running worker
        let mut j: usize = 0;
        while j < self.proxies.len()
            invariant
                j <= self.proxies@.len(),
                self.wf(),
                g1.wf(),
                added@.len() == r@.len(),
                forall|k: int| 0 <= k < r@.len() ==> {
                    &&& (#[trigger] added@[k]).id@ == "LOAD-STATE-"@ + dec_str(k)
                    &&& added@[k].order == r@[k]
                },
                self.proxies@.len() == g1.proxies@.len(),
                *self == (CommandServer { proxies: self.proxies, ..g1 }),
                forall|j2: int| j <= j2 < g1.proxies@.len()
                    ==> #[trigger] self.proxies@[j2] == g1.proxies@[j2],
                forall|j2: int| 0 <= j2 < j ==> {
                    let ow = #[trigger] g1.proxies@[j2];
                    let nw = self.proxies@[j2];
                    if ow.run_state == RunState::Running {
                        &&& nw == (Worker { outbox: nw.outbox, ..ow })
                        &&& nw.outbox@ == ow.outbox@ + added@
                    } else {
                        nw == ow
                    }
                },
            decreases self.proxies@.len() - j,
        {
            let ghost gw = *self;
            if self.proxies[j].run_state == RunState::Running {
                let mut a2 = added.clone();
                proof {
                    assert(a2@ =~= added@);
                }
                self.proxies[j].outbox.append(&mut a2);
                proof {
                    assert(self.proxies@[j as int].outbox@
                        == gw.proxies@[j as int].outbox@ + added@);
                    lemma_wf_outbox_only(gw, *self);
                    assert forall|j2: int| 0 <= j2 < j + 1 implies {
                        let ow = #[trigger] g1.proxies@[j2];
                        let nw = self.proxies@[j2];
                        if ow.run_state == RunState::Running {
                            &&& nw == (Worker { outbox: nw.outbox, ..ow })
                            &&& nw.outbox@ == ow.outbox@ + added@
                        } else {
                            nw == ow
                        }
                    } by {
                        if j2 != j as int {
                            assert(self.proxies@[j2] == gw.proxies@[j2]);
                        }
                    }
                }
            }
            j += 1;
        }
        proof {
            assert forall|j2: int| 0 <= j2 < g1.proxies@.len() implies {
                let ow = #[trigger] g.proxies@[j2];
                let nw = self.proxies@[j2];
                if ow.run_state == RunState::Running {
                    &&& nw == (Worker { outbox: nw.outbox, ..ow })
                    &&& nw.outbox@.len() == ow.outbox@.len() + r@.len()
                    &&& nw.outbox@.take(ow.outbox@.len() as int) == ow.outbox@
                    &&& forall|k: int| 0 <= k < r@.len() ==> {
                        &&& (#[trigger] nw.outbox@[ow.outbox@.len() + k]).id@
                            == "LOAD-STATE-"@ + dec_str(k)
                        &&& nw.outbox@[ow.outbox@.len() + k].order == r@[k]
                    }
                } else {
                    nw == ow
                }
            } by {
                assert(g1.proxies@[j2] == g.proxies@[j2]);
                let ow = g.proxies@[j2];
                let nw = self.proxies@[j2];
                if ow.run_state == RunState::Running {
                    assert(nw.outbox@ == ow.outbox@ + added@);
                    assert(nw.outbox@.take(ow.outbox@.len() as int) =~= ow.outbox@);
                    assert forall|k: int| 0 <= k < r@.len() implies
                        ((#[trigger] nw.outbox@[ow.outbox@.len() + k]).id@
                            == "LOAD-STATE-"@ + dec_str(k)
                        && nw.outbox@[ow.outbox@.len() + k].order == r@[k]) by {
                        assert(nw.outbox@[ow.outbox@.len() + k] == added@[k]);
                    }
                }
            }
        }
        r
    }
}

fn clone_inflight(v: &Vec<(String, Order)>) -> (r: Vec<(String, Order)>)
    ensures
        r@ == v@,
{
    let mut r: Vec<(String, Order)> = Vec::new();
    let mut i: usize = 0;
    while i < v.len()
        invariant
            i <= v@.len(),
            r@ =~= v@.take(i as int),
        decreases v@.len() - i,
    {
        r.push((v[i].0.clone(), v[i].1.clone()));
        proof {
            assert(r@ =~= v@.take(i as int + 1));
        }
        i += 1;
    }
    proof {
        assert(v@.take(v@.len() as int) =~= v@);
    }
    r
}

impl CommandServer {
    /// Installs a freshly forked worker, or reports the failed fork. With a
    /// pid and socket fd in hand, the worker joins the registry under a new
    /// id and token and, when another worker is already running, receives
    /// the whole configuration replay as `LAUNCH-CONF-<n>` orders, each
    /// tracked by the fan-out map like any other request.
    pub fn launch_worker(&mut self, tag: &String, token: FrontToken, message: &ConfigMessage, start: Option<(i32, i32)>)
        requires
            old(self).wf(),
            token.0 < old(self).conns@.len(),
            old(self).conns@[token.0 as int] is Some,
            old(self).next_id < 0xffff_ffffu32,
            old(self).token_count < 0xffff_ffffu32,
            forall|j: int| 0 <= j < old(self).proxies@.len()
                ==> (#[trigger] old(self).proxies@[j]).id <= old(self).next_id,
            forall|j: int| 0 <= j < old(self).proxies@.len()
                ==> (#[trigger] old(self).proxies@[j]).token <= old(self).token_count,
        ensures
            final(self).wf(),
            match start {
                None => {
                    &&& replied(*old(self), *final(self), token.0 as int)
                    &&& last_answer(*final(self), token.0 as int).id@ == message.id@
                    &&& last_answer(*final(self), token.0 as int).status == ConfigMessageStatus::Error
                    &&& last_answer(*final(self), token.0 as int).message@ == "failed creating worker"@
                },
                Some((pid, fd)) => {
                    &&& final(self).next_id == old(self).next_id + 1
                    &&& final(self).token_count == old(self).token_count + 1
                    &&& final(self).state@ == old(self).state@
                    &&& final(self).sock_fd == old(self).sock_fd
                    &&& final(self).buffer_size == old(self).buffer_size
                    &&& final(self).max_buffer_size == old(self).max_buffer_size
                    &&& final(self).must_stop == old(self).must_stop
                    &&& final(self).proxies@.len() == old(self).proxies@.len() + 1
                    &&& forall|j: int| 0 <= j < old(self).proxies@.len()
                        ==> #[trigger] final(self).proxies@[j] == old(self).proxies@[j]
                    &&& ({
                        let nw = final(self).proxies@[old(self).proxies@.len() as int];
                        &&& nw.id == old(self).next_id + 1
                        &&& nw.pid == pid
                        &&& nw.fd == fd
                        &&& nw.token == old(self).token_count + 1
                        &&& nw.run_state == RunState::Running
                        &&& if any_running(old(self).proxies@) {
                            // the whole configuration is replayed to the
                            // newcomer before anything else reaches it; each
                            // replay id is tracked like any other request
                            &&& apply_seq(StateModel::empty(), outbox_orders(nw.outbox@))
                                == old(self).state@
                            &&& forall|k: int| 0 <= k < nw.outbox@.len() ==> {
                                &&& (#[trigger] nw.outbox@[k]).id@ == launch_id(k)
                                &&& nw.owes_exact(nw.outbox@[k].id@, nw.outbox@[k].order@)
                                &&& final(self).has_entry(nw.outbox@[k].id@)
                                &&& (!old(self).has_entry(nw.outbox@[k].id@) ==> ({
                                    let e = entry_at(final(self).inflight@, nw.outbox@[k].id@);
                                    &&& forall|t: u32| #[trigger] e.has_token(t) == (t == nw.token)
                                    &&& e.all_ok
                                    &&& e.messages@ == Seq::<char>::empty()
                                }))
                            }
                            &&& forall|x: Seq<char>| not_launch_id(x, nw.outbox@.len() as int)
                                ==> ((#[trigger] final(self).has_entry(x)) == old(self).has_entry(x)
                                    && (old(self).has_entry(x)
                                        ==> entry_at(final(self).inflight@, x)
                                            == entry_at(old(self).inflight@, x)))
                        } else {
                            &&& nw.outbox@.len() == 0
                            &&& final(self).inflight == old(self).inflight
                        }
                    })
                    &&& ({
                        let c = token.0 as int;
                        match (old(self).conns@[c], final(self).conns@[c]) {
                            (Some(os), Some(ns)) => {
                                &&& ns.outbox@.len() == os.outbox@.len() + 2
                                &&& ns.outbox@[os.outbox@.len() as int].id@ == message.id@
                                &&& ns.outbox@[os.outbox@.len() as int].status
                                    == ConfigMessageStatus::Processing
                                &&& ns.outbox@.last().id@ == message.id@
                                &&& ns.outbox@.last().status == ConfigMessageStatus::Okay
                            },
                            _ => false,
                        }
                    })
                },
            },
    {
        let ghost g = *self;
        match start {
            None => {
                self.reply(token, ConfigMessageAnswer::new(
                    message.id.clone(), ConfigMessageStatus::Error,
                    String::from_str("failed creating worker"), None));
            },
            Some((pid, fd)) => {
                self.reply(token, ConfigMessageAnswer::new(
                    message.id.clone(), ConfigMessageStatus::Processing,
                    String::from_str("sending configuration orders"), None));
                let ghost g2 = *self;
                let mut has_running = false;
                let mut j: usize = 0;
                while j < self.proxies.len()
                    invariant
                        *self == g2,
                        j <= self.proxies@.len(),
                        has_running == exists|j2: int| 0 <= j2 < j
                            && (#[trigger] self.proxies@[j2]).run_state == RunState::Running,
                    decreases self.proxies@.len() - j,
                {
                    if self.proxies[j].run_state == RunState::Running {
                        has_running = true;
                        proof {
                            assert(self.proxies@[j as int].run_state == RunState::Running);
                        }
                    }
                    j += 1;
                }
                proof {
                    assert(self.proxies == g.proxies);
                    assert(has_running == any_running(g.proxies@));
                }
                self.next_id = self.next_id + 1;
                self.token_count = self.token_count + 1;
                let new_id = self.next_id;
                let worker_token = self.token_count;
                let w = Worker {
                    id: new_id,
                    pid,
                    fd,
                    run_state: RunState::Running,
                    token: worker_token,
                    inflight: Vec::new(),
                    outbox: Vec::new(),
                };
                self.proxies.push(w);
                let ghost g3 = *self;
                proof {
                    let ni = g.proxies@.len() as int;
                    assert(self.proxies@.drop_last() =~= g.proxies@);
                    assert forall|e: int| 0 <= e < self.inflight@.len() implies
                        !(#[trigger] self.inflight@[e]).has_token(worker_token) by {
                        if self.inflight@[e].has_token(worker_token) {
                            let j2 = choose|j2: int| 0 <= j2 < g.proxies@.len()
                                && g.proxies@[j2].token == worker_token;
                            assert(g.proxies@[j2].token <= g.token_count);
                            assert(false);
                        }
                    }
                    assert(self.wf()) by {
                        assert forall|a: int, b: int| 0 <= a < b < self.proxies@.len() implies
                            self.proxies@[a].token != self.proxies@[b].token by {
                            if b < ni {
                                assert(self.proxies@[a] == g.proxies@[a]);
                                assert(self.proxies@[b] == g.proxies@[b]);
                            } else {
                                assert(self.proxies@[a] == g.proxies@[a]);
                                assert(g.proxies@[a].token <= g.token_count);
                            }
                        }
                        assert forall|e: int, j2: int|
                            0 <= e < self.inflight@.len() && 0 <= j2 < self.proxies@.len() implies
                            (#[trigger] self.inflight@[e].has_token(self.proxies@[j2].token)
                                == self.proxies@[j2].owes(self.inflight@[e].id@)) by {
                            if j2 < ni {
                                assert(self.proxies@[j2] == g.proxies@[j2]);
                            } else {
                                assert(!self.proxies@[j2].owes(self.inflight@[e].id@));
                                assert(!self.inflight@[e].has_token(worker_token));
                            }
                        }
                        assert forall|e: int, t: u32|
                            0 <= e < self.inflight@.len() && #[trigger] self.inflight@[e].has_token(t) implies
                            exists|j2: int| 0 <= j2 < self.proxies@.len() && self.proxies@[j2].token == t by {
                            let j2 = choose|j2: int| 0 <= j2 < g.proxies@.len() && g.proxies@[j2].token == t;
                            assert(self.proxies@[j2].token == t);
                        }
                        assert forall|j2: int, k: int|
                            0 <= j2 < self.proxies@.len() && 0 <= k < self.proxies@[j2].inflight@.len() implies
                            self.has_entry((#[trigger] self.proxies@[j2].inflight@[k]).0@) by {
                            assert(self.proxies@[ni].inflight@.len() == 0);
                            assert(j2 < ni);
                            assert(self.proxies@[j2] == g.proxies@[j2]);
                            assert(g.has_entry(g.proxies@[j2].inflight@[k].0@));
                            assert(self.inflight == g.inflight);
                            let e3 = choose|e3: int| 0 <= e3 < g.inflight@.len()
                                && g.inflight@[e3].id@ == g.proxies@[j2].inflight@[k].0@;
                            assert(0 <= e3 < self.inflight@.len()
                                && self.inflight@[e3].id@ == self.proxies@[j2].inflight@[k].0@);
                        }
                        assert forall|j2: int| 0 <= j2 < self.proxies@.len() implies
                            (#[trigger] self.proxies@[j2]).wf() by {
                            if j2 < ni {
                                assert(self.proxies@[j2] == g.proxies@[j2]);
                            }
                        }
                    }
                }
                if has_running {
                    let orders = self.state.generate_orders();
                    let ghost ni = g.proxies@.len() as int;
                    let mut n: usize = 0;
                    while n < orders.len()
                        invariant
                            n <= orders@.len(),
                            self.wf(),
                            token.0 < self.conns@.len(),
                            self.conns@[token.0 as int] is Some,
                            self.state@ == g3.state@,
                            g3.state@ == g.state@,
                            self.sock_fd == g3.sock_fd,
                            self.buffer_size == g3.buffer_size,
                            self.max_buffer_size == g3.max_buffer_size,
                            self.next_id == g3.next_id,
                            self.token_count == g3.token_count,
                            self.must_stop == g3.must_stop,
                            self.proxies@.len() == g3.proxies@.len(),
                            0 <= ni,
                            ni + 1 == g3.proxies@.len(),
                            forall|j2: int| 0 <= j2 < ni
                                ==> #[trigger] self.proxies@[j2] == g3.proxies@[j2],
                            forall|j2: int| 0 <= j2 < ni
                                ==> (#[trigger] g3.proxies@[j2]).id <= g.next_id,
                            g3.inflight == g.inflight,
                            ({
                                let nw = self.proxies@[ni];
                                &&& nw.id == new_id && nw.pid == pid && nw.fd == fd
                                &&& nw.token == worker_token
                                &&& nw.run_state == RunState::Running
                                &&& nw.outbox@.len() == n
                                &&& forall|k: int| 0 <= k < n ==> {
                                    &&& (#[trigger] nw.outbox@[k]).id@ == launch_id(k)
                                    &&& nw.outbox@[k].order@ == order_models(orders@)[k]
                                    &&& nw.owes_exact(nw.outbox@[k].id@, nw.outbox@[k].order@)
                                    &&& self.has_entry(nw.outbox@[k].id@)
                                    &&& (!g3.has_entry(nw.outbox@[k].id@) ==> ({
                                        let e = entry_at(self.inflight@, nw.outbox@[k].id@);
                                        &&& forall|t: u32| #[trigger] e.has_token(t) == (t == worker_token)
                                        &&& e.all_ok
                                        &&& e.messages@ == Seq::<char>::empty()
                                    }))
                                }
                            }),
                            forall|x: Seq<char>| not_launch_id(x, n as int)
                                ==> ((#[trigger] self.has_entry(x)) == g3.has_entry(x)
                                    && (g3.has_entry(x)
                                        ==> entry_at(self.inflight@, x) == entry_at(g3.inflight@, x))),
                            new_id == g.next_id + 1,
                            apply_seq(StateModel::empty(), order_models(orders@)) == g.state@,
                            forall|k: int| 0 <= k < orders@.len()
                                ==> apply(g.state@, #[trigger] order_models(orders@)[k]) == g.state@
                                    && !(order_models(orders@)[k] is SoftStop)
                                    && !(order_models(orders@)[k] is HardStop),
                            ({
                                match (g3.conns@[token.0 as int], self.conns@[token.0 as int]) {
                                    (Some(os), Some(ns)) => ns.outbox == os.outbox,
                                    _ => false,
                                }
                            }),
                        decreases orders@.len() - n,
                    {
                        let id_n = fmt_id("LAUNCH-CONF-", n);
                        let ghost pre = *self;
                        proof {
                            assert(is_target(self.proxies@[ni], Some(new_id)));
                        }
                        self.dispatch_order(token, &id_n, Some(new_id), &orders[n]);
                        proof {
                            assert(pre.proxies@.len() == g3.proxies@.len());
                            assert(0 <= ni);
                            assert(ni < pre.proxies@.len());
                            assert(pre.proxies@[ni].run_state == RunState::Running);
                            assert(pre.proxies@[ni].id == new_id);
                            assert(is_target(pre.proxies@[ni], Some(new_id)));
                            assert(any_target(pre.proxies@, Some(new_id)));
                            assert forall|j2: int| 0 <= j2 < ni implies
                                #[trigger] self.proxies@[j2] == g3.proxies@[j2] by {
                                assert(!is_target(pre.proxies@[j2], Some(new_id))) by {
                                    assert(pre.proxies@[j2].id <= g.next_id);
                                }
                                assert(dispatched_worker(pre.proxies@[j2], self.proxies@[j2],
                                    id_n@, Some(new_id), orders@[n as int]@));
                            }
                            assert(dispatched_worker(pre.proxies@[ni], self.proxies@[ni],
                                id_n@, Some(new_id), orders@[n as int]@));
                            assert(self.proxies@[ni].outbox@.drop_last() == pre.proxies@[ni].outbox@);
                            assert forall|k: int| 0 <= k < n + 1 implies
                                ((#[trigger] self.proxies@[ni].outbox@[k]).id@ == "LAUNCH-CONF-"@ + dec_str(k)
                                && self.proxies@[ni].outbox@[k].order@ == order_models(orders@)[k]) by {
                                if k < n {
                                    assert(self.proxies@[ni].outbox@[k]
                                        == pre.proxies@[ni].outbox@[k]);
                                }
                            }
                            assert(self.state@ == apply(pre.state@, order_models(orders@)[n as int]));
                            assert(self.state@ == g.state@);
                            assert(id_n@ == launch_id(n as int));
                            // this replay id differs from every earlier one
                            assert forall|k: int| 0 <= k < n implies
                                #[trigger] launch_id(k) != id_n@ by {
                                lemma_prefixed_id_injective("LAUNCH-CONF-"@, k, n as int);
                            }
                            // the only target of this dispatch is the newcomer
                            assert forall|t: u32|
                                dispatched_tokens(pre, id_n@, Some(new_id), t)
                                == ((pre.has_entry(id_n@) && entry_at(pre.inflight@, id_n@).has_token(t))
                                    || t == worker_token) by {
                                if exists|j: int| 0 <= j < pre.proxies@.len()
                                    && is_target(#[trigger] pre.proxies@[j], Some(new_id))
                                    && pre.proxies@[j].token == t {
                                    let j = choose|j: int| 0 <= j < pre.proxies@.len()
                                        && is_target(#[trigger] pre.proxies@[j], Some(new_id))
                                        && pre.proxies@[j].token == t;
                                    if j != ni {
                                        assert(pre.proxies@[j] == g3.proxies@[j]);
                                        assert(g3.proxies@[j].id <= g.next_id);
                                        assert(false);
                                    }
                                    assert(t == worker_token);
                                }
                                if t == worker_token {
                                    assert(0 <= ni < pre.proxies@.len()
                                        && is_target(pre.proxies@[ni], Some(new_id))
                                        && pre.proxies@[ni].token == t);
                                }
                            }
                            // the fresh-entry description for the new id
                            assert(pre.has_entry(id_n@) == g3.has_entry(id_n@)) by {
                                assert(not_launch_id(id_n@, n as int));
                            }
                            let nw2 = self.proxies@[ni];
                            assert(nw2.outbox@[n as int].id@ == id_n@);
                            assert forall|k: int| 0 <= k < n + 1 implies ({
                                &&& (#[trigger] nw2.outbox@[k]).id@ == launch_id(k)
                                &&& nw2.outbox@[k].order@ == order_models(orders@)[k]
                                &&& nw2.owes_exact(nw2.outbox@[k].id@, nw2.outbox@[k].order@)
                                &&& self.has_entry(nw2.outbox@[k].id@)
                                &&& (!g3.has_entry(nw2.outbox@[k].id@) ==> ({
                                    let e = entry_at(self.inflight@, nw2.outbox@[k].id@);
                                    &&& forall|t: u32| #[trigger] e.has_token(t) == (t == worker_token)
                                    &&& e.all_ok
                                    &&& e.messages@ == Seq::<char>::empty()
                                }))
                            }) by {
                                if k < n {
                                    assert(nw2.outbox@[k] == pre.proxies@[ni].outbox@[k]);
                                    let idk = nw2.outbox@[k].id@;
                                    assert(idk != id_n@);
                                    assert(nw2.owes_exact(idk, nw2.outbox@[k].order@)) by {
                                        assert(pre.proxies@[ni].owes_exact(idk, nw2.outbox@[k].order@));
                                    }
                                    assert(self.has_entry(idk) == pre.has_entry(idk));
                                    if !g3.has_entry(idk) {
                                        assert(entry_at(self.inflight@, idk) == entry_at(pre.inflight@, idk));
                                    }
                                } else {
                                    assert(!g3.has_entry(id_n@) ==> !pre.has_entry(id_n@));
                                    let e = entry_at(self.inflight@, id_n@);
                                    if !g3.has_entry(id_n@) {
                                        assert forall|t: u32| #[trigger] e.has_token(t) == (t == worker_token) by {
                                            assert(e.has_token(t) == dispatched_tokens(pre, id_n@, Some(new_id), t));
                                        }
                                    }
                                }
                            }
                            assert forall|x: Seq<char>| not_launch_id(x, n as int + 1) implies
                                ((#[trigger] self.has_entry(x)) == g3.has_entry(x)
                                    && (g3.has_entry(x)
                                        ==> entry_at(self.inflight@, x) == entry_at(g3.inflight@, x))) by {
                                assert(x != launch_id(n as int));
                                assert(x != id_n@);
                                assert(not_launch_id(x, n as int)) by {
                                    assert forall|k: int| 0 <= k < n implies x != #[trigger] launch_id(k) by {}
                                }
                                assert(self.has_entry(x) == pre.has_entry(x));
                                assert(pre.has_entry(x) == g3.has_entry(x));
                                if g3.has_entry(x) {
                                    assert(entry_at(self.inflight@, x) == entry_at(pre.inflight@, x));
                                    assert(entry_at(pre.inflight@, x) == entry_at(g3.inflight@, x));
                                }
                            }
                        }
                        n += 1;
                    }
                    proof {
                        let nw = self.proxies@[ni];
                        assert(outbox_orders(nw.outbox@) =~= order_models(orders@));
                        // the tracker before the replay is the caller's
                        assert(g3.inflight == g.inflight);
                        assert forall|x: Seq<char>| (#[trigger] g3.has_entry(x)) == g.has_entry(x) by {
                            if g3.has_entry(x) {
                                let e2 = choose|e2: int| 0 <= e2 < g3.inflight@.len() && g3.inflight@[e2].id@ == x;
                                assert(g.inflight@[e2].id@ == x);
                            }
                            if g.has_entry(x) {
                                let e2 = choose|e2: int| 0 <= e2 < g.inflight@.len() && g.inflight@[e2].id@ == x;
                                assert(g3.inflight@[e2].id@ == x);
                            }
                        }
                    }
                }
                let ghost fr = *self;
                self.reply(token, ConfigMessageAnswer::new(
                    message.id.clone(), ConfigMessageStatus::Okay, String::new(), None));
                proof {
                    assert(self.inflight == fr.inflight);
                    assert(self.proxies == fr.proxies);
                    assert(self.inflight@ == fr.inflight@);
                    assert forall|x: Seq<char>| (#[trigger] self.has_entry(x)) == fr.has_entry(x) by {
                        if self.has_entry(x) {
                            let e2 = choose|e2: int| 0 <= e2 < self.inflight@.len() && self.inflight@[e2].id@ == x;
                            assert(fr.inflight@[e2].id@ == x);
                        }
                        if fr.has_entry(x) {
                            let e2 = choose|e2: int| 0 <= e2 < fr.inflight@.len() && fr.inflight@[e2].id@ == x;
                            assert(self.inflight@[e2].id@ == x);
                        }
                    }
                }
            },
        }
    }

    /// Reports the successor's acknowledgement after an upgrade attempt:
    /// on success the requester gets `Okay` and the master marks itself to
    /// stop; on failure the requester gets `Error` and the master stays in
    /// service.
    pub fn upgrade_result(&mut self, token: FrontToken, message_id: &String, success: bool)
        requires
            old(self).wf(),
            token.0 < old(self).conns@.len(),
            old(self).conns@[token.0 as int] is Some,
        ensures
            final(self).wf(),
            final(self).must_stop == (success || old(self).must_stop),
            replied((CommandServer { must_stop: final(self).must_stop, ..*old(self) }), *final(self), token.0 as int),
            last_answer(*final(self), token.0 as int).id@ == message_id@,
            last_answer(*final(self), token.0 as int).status
                == (if success { ConfigMessageStatus::Okay } else { ConfigMessageStatus::Error }),
            last_answer(*final(self), token.0 as int).message@
                == (if success {
                    "new master process launched, closing the old one"@
                } else {
                    "could not upgrade master process"@
                }),
    {
        if success {
            self.must_stop = true;
            self.reply(token, ConfigMessageAnswer::new(
                message_id.clone(), ConfigMessageStatus::Okay,
                String::from_str("new master process launched, closing the old one"), None));
        } else {
            self.reply(token, ConfigMessageAnswer::new(
                message_id.clone(), ConfigMessageStatus::Error,
                String::from_str("could not upgrade master process"), None));
        }
    }

    /// Gathers everything a successor master needs: the listener fd, each
    /// worker with its socket fd and in-flight map, the configuration state,
    /// the counters, and the fan-out tracker.
    pub fn generate_upgrade_data(&self) -> (r: UpgradeData)
        requires
            self.wf(),
        ensures
            r.valid(),
            r.command == self.sock_fd,
            r.buffer_size == self.buffer_size,
            r.max_buffer_size == self.max_buffer_size,
            r.state@ == self.state@,
            r.state.wf(),
            r.next_id == self.next_id,
            r.token_count == self.token_count,
            r.workers@.len() == self.proxies@.len(),
            forall|j: int| 0 <= j < self.proxies@.len() ==> {
                let sw = #[trigger] r.workers@[j];
                let w = self.proxies@[j];
                sw.id == w.id && sw.pid == w.pid && sw.fd == w.fd
                    && sw.token == Some(w.token) && sw.run_state == w.run_state
                    && sw.inflight@ == w.inflight@
            },
            r.inflight@.len() == self.inflight@.len(),
            forall|e: int| 0 <= e < self.inflight@.len() ==> {
                let ne = #[trigger] r.inflight@[e];
                let oe = self.inflight@[e];
                ne.id@ == oe.id@ && ne.tokens@ == oe.tokens@
                    && ne.all_ok == oe.all_ok && ne.messages@ == oe.messages@
            },
    {
        let mut workers: Vec<SerializedWorker> = Vec::new();
        let mut j: usize = 0;
        while j < self.proxies.len()
            invariant
                j <= self.proxies@.len(),
                workers@.len() == j,
                forall|j2: int| 0 <= j2 < j ==> {
                    let sw = #[trigger] workers@[j2];
                    let w = self.proxies@[j2];
                    sw.id == w.id && sw.pid == w.pid && sw.fd == w.fd
                        && sw.token == Some(w.token) && sw.run_state == w.run_state
                        && sw.inflight@ == w.inflight@
                },
            decreases self.proxies@.len() - j,
        {
            let w = &self.proxies[j];
            workers.push(SerializedWorker {
                id: w.id,
                pid: w.pid,
                fd: w.fd,
                token: Some(w.token),
                run_state: w.run_state,
                inflight: clone_inflight(&w.inflight),
            });
            j += 1;
        }
        let mut entries: Vec<FanOut> = Vec::new();
        let mut e: usize = 0;
        while e < self.inflight.len()
            invariant
                e <= self.inflight@.len(),
                entries@.len() == e,
                forall|e2: int| 0 <= e2 < e ==> {
                    let ne = #[trigger] entries@[e2];
                    let oe = self.inflight@[e2];
                    ne.id@ == oe.id@ && ne.tokens@ == oe.tokens@
                        && ne.all_ok == oe.all_ok && ne.messages@ == oe.messages@
                },
            decreases self.inflight@.len() - e,
        {
            let f = &self.inflight[e];
            let toks = f.tokens.clone();
            proof {
                assert(toks@ =~= f.tokens@);
            }
            entries.push(FanOut {
                id: f.id.clone(),
                tokens: toks,
                all_ok: f.all_ok,
                messages: f.messages.clone(),
            });
            e += 1;
        }
        let r = UpgradeData {
            command: self.sock_fd,
            buffer_size: self.buffer_size,
            max_buffer_size: self.max_buffer_size,
            workers,
            state: self.state.clone(),
            next_id: self.next_id,
            token_count: self.token_count,
            inflight: entries,
        };
        proof {
            assert(r.valid()) by {
                assert(r.state.wf()) by {
                    assert(r.state.applications@ == self.state.applications@);
                    assert(r.state.http_fronts@ == self.state.http_fronts@);
                    assert(r.state.https_fronts@ == self.state.https_fronts@);
                    assert(r.state.certificates@ == self.state.certificates@);
                    assert(r.state.backends@ == self.state.backends@);
                }
                assert forall|j2: int| 0 <= j2 < r.workers@.len() implies
                    (#[trigger] r.workers@[j2]).token is Some by {}
                assert forall|j2: int| 0 <= j2 < r.workers@.len() implies
                    (#[trigger] r.workers@[j2]).wf() by {
                    assert(self.proxies@[j2].wf());
                    assert(r.workers@[j2].inflight@ == self.proxies@[j2].inflight@);
                }
                assert forall|i2: int, j2: int| 0 <= i2 < j2 < r.workers@.len() implies
                    r.workers@[i2].token != r.workers@[j2].token by {
                    assert(r.workers@[i2].token == Some(self.proxies@[i2].token));
                    assert(r.workers@[j2].token == Some(self.proxies@[j2].token));
                }
                assert forall|i2: int, j2: int|
                    0 <= i2 < r.inflight@.len() && 0 <= j2 < r.workers@.len() implies
                    (#[trigger] r.inflight@[i2].has_token(r.workers@[j2].token->0)
                        == r.workers@[j2].owes(r.inflight@[i2].id@)) by {
                    assert(r.inflight@[i2].tokens@ == self.inflight@[i2].tokens@);
                    assert(r.workers@[j2].inflight@ == self.proxies@[j2].inflight@);
                    assert(self.inflight@[i2].has_token(self.proxies@[j2].token)
                        == self.proxies@[j2].owes(self.inflight@[i2].id@));
                }
                assert forall|i2: int, t: u32|
                    0 <= i2 < r.inflight@.len() && #[trigger] r.inflight@[i2].has_token(t) implies
                    exists|j2: int| 0 <= j2 < r.workers@.len() && r.workers@[j2].token == Some(t) by {
                    assert(self.inflight@[i2].has_token(t));
                    let j2 = choose|j2: int| 0 <= j2 < self.proxies@.len() && self.proxies@[j2].token == t;
                    assert(r.workers@[j2].token == Some(t));
                }
                assert forall|j2: int, k: int|
                    0 <= j2 < r.workers@.len() && 0 <= k < r.workers@[j2].inflight@.len() implies
                    r.has_entry((#[trigger] r.workers@[j2].inflight@[k]).0@) by {
                    assert(r.workers@[j2].inflight@ == self.proxies@[j2].inflight@);
                    assert(self.has_entry(self.proxies@[j2].inflight@[k].0@));
                    let i2 = choose|i2: int| 0 <= i2 < self.inflight@.len()
                        && self.inflight@[i2].id@ == self.proxies@[j2].inflight@[k].0@;
                    assert(r.inflight@.len() == self.inflight@.len());
                    assert(r.inflight@[i2].id@ == self.inflight@[i2].id@);
                    assert(0 <= i2 < r.inflight@.len()
                        && r.inflight@[i2].id@ == r.workers@[j2].inflight@[k].0@);
                }
                assert forall|i2: int, j2: int| 0 <= i2 < j2 < r.inflight@.len() implies
                    r.inflight@[i2].id@ != r.inflight@[j2].id@ by {
                    assert(r.inflight@[i2].id@ == self.inflight@[i2].id@);
                    assert(r.inflight@[j2].id@ == self.inflight@[j2].id@);
                }
                assert forall|i2: int| 0 <= i2 < r.inflight@.len() implies
                    (#[trigger] r.inflight@[i2]).wf() by {
                    assert(r.inflight@[i2].tokens@ == self.inflight@[i2].tokens@);
                    assert(self.inflight@[i2].wf());
                }
            }
        }
        r
    }

    /// Rebuilds a command server from upgrade data: the registry is restored
    /// worker for worker around the inherited fds, the fan-out tracker is
    /// carried over, and the session slab starts empty, so admin clients
    /// must reconnect.
    pub fn from_upgrade_data(upgrade_data: UpgradeData) -> (r: CommandServer)
        requires
            upgrade_data.valid(),
        ensures
            r.wf(),
            r.sock_fd == upgrade_data.command,
            r.buffer_size == upgrade_data.buffer_size,
            r.max_buffer_size == upgrade_data.max_buffer_size,
            r.state == upgrade_data.state,
            r.next_id == upgrade_data.next_id,
            r.token_count == upgrade_data.token_count,
            r.conns@.len() == 0,
            !r.must_stop,
            r.inflight == upgrade_data.inflight,
            r.proxies@.len() == upgrade_data.workers@.len(),
            forall|j: int| 0 <= j < upgrade_data.workers@.len() ==> {
                let sw = #[trigger] upgrade_data.workers@[j];
                let w = r.proxies@[j];
                w.id == sw.id && w.pid == sw.pid && w.fd == sw.fd
                    && Some(w.token) == sw.token && w.run_state == sw.run_state
                    && w.inflight@ == sw.inflight@ && w.outbox@.len() == 0
            },
    {
        let ghost ud = upgrade_data;
        let mut proxies: Vec<Worker> = Vec::new();
        let mut j: usize = 0;
        while j < upgrade_data.workers.len()
            invariant
                upgrade_data == ud,
                ud.valid(),
                j <= ud.workers@.len(),
                proxies@.len() == j,
                forall|j2: int| 0 <= j2 < j ==> {
                    let sw = #[trigger] ud.workers@[j2];
                    let w = proxies@[j2];
                    w.id == sw.id && w.pid == sw.pid && w.fd == sw.fd
                        && Some(w.token) == sw.token && w.run_state == sw.run_state
                        && w.inflight@ == sw.inflight@ && w.outbox@.len() == 0
                },
            decreases ud.workers@.len() - j,
        {
            let sw = &upgrade_data.workers[j];
            let tok = match sw.token {
                Some(t) => t,
                None => {
                    proof {
                        assert(false);
                    }
                    0
                },
            };
            proxies.push(Worker {
                id: sw.id,
                pid: sw.pid,
                fd: sw.fd,
                run_state: sw.run_state,
                token: tok,
                inflight: clone_inflight(&sw.inflight),
                outbox: Vec::new(),
            });
            j += 1;
        }
        let r = CommandServer {
            sock_fd: upgrade_data.command,
            buffer_size: upgrade_data.buffer_size,
            max_buffer_size: upgrade_data.max_buffer_size,
            state: upgrade_data.state,
            conns: Vec::new(),
            proxies,
            inflight: upgrade_data.inflight,
            next_id: upgrade_data.next_id,
            token_count: upgrade_data.token_count,
            must_stop: false,
        };
        proof {
            assert(r.wf()) by {
                assert forall|a: int, b: int| 0 <= a < b < r.proxies@.len() implies
                    r.proxies@[a].token != r.proxies@[b].token by {
                    assert(Some(r.proxies@[a].token) == ud.workers@[a].token);
                    assert(Some(r.proxies@[b].token) == ud.workers@[b].token);
                }
                assert forall|j2: int| 0 <= j2 < r.proxies@.len() implies
                    (#[trigger] r.proxies@[j2]).wf() by {
                    assert(ud.workers@[j2].wf());
                    assert(r.proxies@[j2].inflight@ == ud.workers@[j2].inflight@);
                }
                assert forall|e: int, j2: int|
                    0 <= e < r.inflight@.len() && 0 <= j2 < r.proxies@.len() implies
                    (#[trigger] r.inflight@[e].has_token(r.proxies@[j2].token)
                        == r.proxies@[j2].owes(r.inflight@[e].id@)) by {
                    assert(ud.inflight@[e].has_token(ud.workers@[j2].token->0)
                        == ud.workers@[j2].owes(ud.inflight@[e].id@));
                    assert(r.proxies@[j2].token == ud.workers@[j2].token->0);
                    assert(r.proxies@[j2].inflight@ == ud.workers@[j2].inflight@);
                }
                assert forall|e: int, t: u32|
                    0 <= e < r.inflight@.len() && #[trigger] r.inflight@[e].has_token(t) implies
                    exists|j2: int| 0 <= j2 < r.proxies@.len() && r.proxies@[j2].token == t by {
                    let j2 = choose|j2: int| 0 <= j2 < ud.workers@.len()
                        && ud.workers@[j2].token == Some(t);
                    assert(r.proxies@[j2].token == t);
                }
                assert forall|j2: int, k: int|
                    0 <= j2 < r.proxies@.len() && 0 <= k < r.proxies@[j2].inflight@.len() implies
                    r.has_entry((#[trigger] r.proxies@[j2].inflight@[k]).0@) by {
                    assert(r.proxies@[j2].inflight@ == ud.workers@[j2].inflight@);
                    let i2 = choose|i2: int| 0 <= i2 < ud.inflight@.len()
                        && ud.inflight@[i2].id@ == ud.workers@[j2].inflight@[k].0@;
                    assert(r.inflight@[i2].id@ == r.proxies@[j2].inflight@[k].0@);
                }
            }
        }
        r
    }

    /// One admin frame, decoded: updates the state, queues answers and
    /// worker frames, and returns the work that must happen outside the
    /// library (file writes and reads, forks, the upgrade handshake).
    pub fn handle_client_message(&mut self, token: FrontToken, message: &ConfigMessage) -> (acts: Vec<SideAction>)
        requires
            old(self).wf(),
            token.0 < old(self).conns@.len(),
            old(self).conns@[token.0 as int] is Some,
        ensures
            final(self).wf(),
            match message.data {
                ConfigCommand::SaveState(_) => {
                    &&& *final(self) == *old(self)
                    &&& acts@.len() == 1
                    &&& (acts@[0] matches SideAction::SaveFile { path: p, frames: f }
                        && (match message.data {
                            ConfigCommand::SaveState(sp) => p@ == sp@,
                            _ => false,
                        })
                        && apply_seq(StateModel::empty(), frame_orders(f@)) == old(self).state@
                        && (forall|k: int| 0 <= k < f@.len() ==> {
                            &&& (#[trigger] f@[k]).id@ == "SAVE-"@ + dec_str(k)
                            &&& f@[k].proxy_id is None
                            &&& f@[k].data is ProxyConfiguration
                        }))
                },
                ConfigCommand::LoadState(_) => {
                    &&& *final(self) == *old(self)
                    &&& acts@.len() == 1
                    &&& (acts@[0] matches SideAction::LoadFile { path: p }
                        && (match message.data {
                            ConfigCommand::LoadState(lp) => p@ == lp@,
                            _ => false,
                        }))
                },
                ConfigCommand::DumpState => {
                    &&& acts@.len() == 0
                    &&& replied(*old(self), *final(self), token.0 as int)
                    &&& last_answer(*final(self), token.0 as int).id@ == message.id@
                    &&& last_answer(*final(self), token.0 as int).status == ConfigMessageStatus::Okay
                    &&& (last_answer(*final(self), token.0 as int).data
                        matches Some(AnswerData::State(st)) && st@ == old(self).state@)
                },
                ConfigCommand::ListWorkers => {
                    &&& acts@.len() == 0
                    &&& replied(*old(self), *final(self), token.0 as int)
                    &&& last_answer(*final(self), token.0 as int).id@ == message.id@
                    &&& last_answer(*final(self), token.0 as int).status == ConfigMessageStatus::Okay
                    &&& (last_answer(*final(self), token.0 as int).data
                        matches Some(AnswerData::Workers(ws))
                        && ws@.len() == old(self).proxies@.len()
                        && (forall|j: int| 0 <= j < ws@.len() ==> {
                            &&& (#[trigger] ws@[j]).id == old(self).proxies@[j].id
                            &&& ws@[j].pid == old(self).proxies@[j].pid
                            &&& ws@[j].run_state == old(self).proxies@[j].run_state
                        }))
                },
                ConfigCommand::LaunchWorker(_) => {
                    &&& *final(self) == *old(self)
                    &&& acts@.len() == 1
                    &&& (acts@[0] matches SideAction::StartWorker { tag: t }
                        && (match message.data {
                            ConfigCommand::LaunchWorker(lt) => t@ == lt@,
                            _ => false,
                        }))
                },
                ConfigCommand::UpgradeMaster => {
                    &&& acts@.len() == 1
                    &&& (acts@[0] matches SideAction::Upgrade { data: d }
                        && d.valid()
                        && d.command == old(self).sock_fd
                        && d.buffer_size == old(self).buffer_size
                        && d.max_buffer_size == old(self).max_buffer_size
                        && d.state@ == old(self).state@
                        && d.next_id == old(self).next_id
                        && d.token_count == old(self).token_count
                        && d.workers@.len() == old(self).proxies@.len())
                    &&& replied(*old(self), *final(self), token.0 as int)
                    &&& last_answer(*final(self), token.0 as int).id@ == message.id@
                    &&& last_answer(*final(self), token.0 as int).status
                        == ConfigMessageStatus::Processing
                },
                ConfigCommand::Metrics => {
                    &&& acts@.len() == 0
                    &&& dispatched(*old(self), *final(self), token.0 as int, message.id@,
                        message.proxy_id, OrderModel::Metrics)
                },
                ConfigCommand::ProxyConfiguration(_) => {
                    &&& acts@.len() == 0
                    &&& (match message.data {
                        ConfigCommand::ProxyConfiguration(o) => dispatched(*old(self), *final(self),
                            token.0 as int, message.id@, message.proxy_id, o@),
                        _ => false,
                    })
                },
            },
    {
        let mut acts: Vec<SideAction> = Vec::new();
        match &message.data {
            ConfigCommand::SaveState(path) => {
                let frames = self.save_state();
                acts.push(SideAction::SaveFile { path: path.clone(), frames });
            },
            ConfigCommand::LoadState(path) => {
                acts.push(SideAction::LoadFile { path: path.clone() });
            },
            ConfigCommand::DumpState => {
                self.reply(token, ConfigMessageAnswer::new(
                    message.id.clone(), ConfigMessageStatus::Okay, String::new(),
                    Some(AnswerData::State(self.state.clone()))));
            },
            ConfigCommand::ListWorkers => {
                let mut ws: Vec<WorkerInfo> = Vec::new();
                let mut j: usize = 0;
                while j < self.proxies.len()
                    invariant
                        j <= self.proxies@.len(),
                        ws@.len() == j,
                        forall|j2: int| 0 <= j2 < j ==> {
                            &&& (#[trigger] ws@[j2]).id == self.proxies@[j2].id
                            &&& ws@[j2].pid == self.proxies@[j2].pid
                            &&& ws@[j2].run_state == self.proxies@[j2].run_state
                        },
                    decreases self.proxies@.len() - j,
                {
                    let info = self.proxies[j].info();
                    ws.push(info);
                    j += 1;
                }
                self.reply(token, ConfigMessageAnswer::new(
                    message.id.clone(), ConfigMessageStatus::Okay, String::new(),
                    Some(AnswerData::Workers(ws))));
            },
            ConfigCommand::LaunchWorker(tag) => {
                acts.push(SideAction::StartWorker { tag: tag.clone() });
            },
            ConfigCommand::UpgradeMaster => {
                let data = self.generate_upgrade_data();
                self.reply(token, ConfigMessageAnswer::new(
                    message.id.clone(), ConfigMessageStatus::Processing, String::new(), None));
                acts.push(SideAction::Upgrade { data });
            },
            ConfigCommand::Metrics => {
                self.dispatch_order(token, &message.id, message.proxy_id, &Order::Metrics);
            },
            ConfigCommand::ProxyConfiguration(order) => {
                self.dispatch_order(token, &message.id, message.proxy_id, order);
            },
        }
        acts
    }
}


/// The fan-out law: in a well-formed server, a tracked request id's token
/// set is exactly the set of tokens of the workers whose in-flight map
/// still holds that id.
pub proof fn lemma_fanout_matches_registry(s: CommandServer, e: int, t: u32)
    requires
        s.wf(),
        0 <= e < s.inflight@.len(),
    ensures
        s.inflight@[e].has_token(t) <==> exists|j: int|
            0 <= j < s.proxies@.len() && (#[trigger] s.proxies@[j]).token == t
            && s.proxies@[j].owes(s.inflight@[e].id@),
{
    if s.inflight@[e].has_token(t) {
        let j = choose|j: int| 0 <= j < s.proxies@.len() && s.proxies@[j].token == t;
        assert(s.inflight@[e].has_token(s.proxies@[j].token) == s.proxies@[j].owes(s.inflight@[e].id@));
        assert(0 <= j < s.proxies@.len() && s.proxies@[j].token == t
            && s.proxies@[j].owes(s.inflight@[e].id@));
    }
    if exists|j: int| 0 <= j < s.proxies@.len() && (#[trigger] s.proxies@[j]).token == t
        && s.proxies@[j].owes(s.inflight@[e].id@) {
        let j = choose|j: int| 0 <= j < s.proxies@.len() && (#[trigger] s.proxies@[j]).token == t
            && s.proxies@[j].owes(s.inflight@[e].id@);
        assert(s.inflight@[e].has_token(s.proxies@[j].token) == s.proxies@[j].owes(s.inflight@[e].id@));
    }
}


fn find_sworker_idx(v: &Vec<SerializedWorker>, t: u32) -> (r: Option<usize>)
    ensures
        match r {
            Some(j) => j < v@.len() && v@[j as int].token == Some(t),
            None => forall|k: int| 0 <= k < v@.len() ==> v@[k].token != Some(t),
        },
{
    let mut k: usize = 0;
    while k < v.len()
        invariant
            k <= v@.len(),
            forall|m: int| 0 <= m < k ==> v@[m].token != Some(t),
        decreases v@.len() - k,
    {
        match v[k].token {
            Some(t2) => {
                if t2 == t {
                    return Some(k);
                }
            },
            None => {},
        }
        k += 1;
    }
    None
}

impl UpgradeData {
    /// Decides `valid` at run time, so a successor can test upgrade data
    /// that arrived over the pipe before rebuilding a server from it.
    pub fn validate(&self) -> (r: bool)
        ensures
            r == self.valid(),
    {
        if !self.state.check_wf() {
            return false;
        }
        // every worker carries a token, each one distinct, keys unique
        let mut j: usize = 0;
        while j < self.workers.len()
            invariant
                j <= self.workers@.len(),
                forall|a: int| 0 <= a < j ==> (#[trigger] self.workers@[a]).token is Some,
                forall|a: int, b: int| 0 <= a < b < j
                    ==> self.workers@[a].token != self.workers@[b].token,
                forall|a: int| 0 <= a < j ==> (#[trigger] self.workers@[a]).wf(),
            decreases self.workers@.len() - j,
        {
            let tok = match self.workers[j].token {
                Some(t) => t,
                None => {
                    proof {
                        assert(!(self.workers@[j as int].token is Some));
                    }
                    return false;
                },
            };
            let mut a: usize = 0;
            while a < j
                invariant
                    a <= j,
                    j < self.workers@.len(),
                    self.workers@[j as int].token == Some(tok),
                    forall|m: int| 0 <= m < a ==> self.workers@[m].token != self.workers@[j as int].token,
                decreases j - a,
            {
                match self.workers[a].token {
                    Some(t2) => {
                        if t2 == tok {
                            proof {
                                assert(self.workers@[a as int].token == self.workers@[j as int].token);
                            }
                            return false;
                        }
                    },
                    None => {},
                }
                a += 1;
            }
            let mut k: usize = 0;
            while k < self.workers[j].inflight.len()
                invariant
                    j < self.workers@.len(),
                    k <= self.workers@[j as int].inflight@.len(),
                    forall|a2: int, b2: int| 0 <= a2 < b2 < k
                        ==> self.workers@[j as int].inflight@[a2].0@
                            != self.workers@[j as int].inflight@[b2].0@,
                decreases self.workers@[j as int].inflight@.len() - k,
            {
                match find_key_idx_upto(&self.workers[j].inflight, k) {
                    Some(_) => {
                        return false;
                    },
                    None => {},
                }
                k += 1;
            }
            j += 1;
        }
        // entry ids unique, token sets nonempty and duplicate-free
        let mut e: usize = 0;
        while e < self.inflight.len()
            invariant
                e <= self.inflight@.len(),
                forall|a: int, b: int| 0 <= a < b < e
                    ==> self.inflight@[a].id@ != self.inflight@[b].id@,
                forall|a: int| 0 <= a < e ==> (#[trigger] self.inflight@[a]).wf(),
            decreases self.inflight@.len() - e,
        {
            if self.inflight[e].tokens.len() == 0 {
                proof {
                    assert(!self.inflight@[e as int].wf());
                }
                return false;
            }
            let mut a: usize = 0;
            while a < e
                invariant
                    a <= e,
                    e < self.inflight@.len(),
                    forall|m: int| 0 <= m < a ==> self.inflight@[m].id@ != self.inflight@[e as int].id@,
                decreases e - a,
            {
                if self.inflight[a].id == self.inflight[e].id {
                    return false;
                }
                a += 1;
            }
            let mut t: usize = 0;
            while t < self.inflight[e].tokens.len()
                invariant
                    e < self.inflight@.len(),
                    t <= self.inflight@[e as int].tokens@.len(),
                    forall|a2: int, b2: int| 0 <= a2 < b2 < t
                        ==> self.inflight@[e as int].tokens@[a2] != self.inflight@[e as int].tokens@[b2],
                decreases self.inflight@[e as int].tokens@.len() - t,
            {
                let mut a2: usize = 0;
                while a2 < t
                    invariant
                        e < self.inflight@.len(),
                        a2 <= t,
                        t < self.inflight@[e as int].tokens@.len(),
                        forall|m: int| 0 <= m < a2
                            ==> self.inflight@[e as int].tokens@[m]
                                != self.inflight@[e as int].tokens@[t as int],
                    decreases t - a2,
                {
                    if self.inflight[e].tokens[a2] == self.inflight[e].tokens[t] {
                        proof {
                            assert(!self.inflight@[e as int].wf());
                        }
                        return false;
                    }
                    a2 += 1;
                }
                t += 1;
            }
            e += 1;
        }
        // the tracker and the worker in-flight maps agree, every tracked
        // token belongs to a worker, every owed id is tracked
        let mut e: usize = 0;
        while e < self.inflight.len()
            invariant
                e <= self.inflight@.len(),
                forall|i2: int, j2: int|
                    0 <= i2 < e && 0 <= j2 < self.workers@.len()
                        ==> (#[trigger] self.inflight@[i2].has_token(self.workers@[j2].token->0)
                            == self.workers@[j2].owes(self.inflight@[i2].id@)),
                forall|i2: int, t2: u32|
                    0 <= i2 < e && #[trigger] self.inflight@[i2].has_token(t2)
                        ==> exists|j2: int| 0 <= j2 < self.workers@.len()
                            && self.workers@[j2].token == Some(t2),
                forall|j2: int| 0 <= j2 < self.workers@.len() ==> (#[trigger] self.workers@[j2]).token is Some,
            decreases self.inflight@.len() - e,
        {
            let mut j2: usize = 0;
            while j2 < self.workers.len()
                invariant
                    e < self.inflight@.len(),
                    j2 <= self.workers@.len(),
                    forall|m: int| 0 <= m < j2
                        ==> (#[trigger] self.inflight@[e as int].has_token(self.workers@[m].token->0)
                            == self.workers@[m].owes(self.inflight@[e as int].id@)),
                    forall|m: int| 0 <= m < self.workers@.len() ==> (#[trigger] self.workers@[m]).token is Some,
                decreases self.workers@.len() - j2,
            {
                let tok = match self.workers[j2].token {
                    Some(t2) => t2,
                    None => {
                        return false;
                    },
                };
                let has = find_token_idx(&self.inflight[e].tokens, tok).is_some();
                let owes = find_key_idx(&self.workers[j2].inflight, &self.inflight[e].id).is_some();
                proof {
                    assert(has == self.inflight@[e as int].has_token(tok)) by {
                        if has {
                            // a found index witnesses containment
                        } else {
                            if self.inflight@[e as int].tokens@.contains(tok) {
                                let m = choose|m: int| 0 <= m < self.inflight@[e as int].tokens@.len()
                                    && self.inflight@[e as int].tokens@[m] == tok;
                                assert(false);
                            }
                        }
                    }
                    assert(owes == self.workers@[j2 as int].owes(self.inflight@[e as int].id@)) by {
                        if !owes {
                            if self.workers@[j2 as int].owes(self.inflight@[e as int].id@) {
                                let m = choose|m: int| 0 <= m < self.workers@[j2 as int].inflight@.len()
                                    && self.workers@[j2 as int].inflight@[m].0@ == self.inflight@[e as int].id@;
                                assert(false);
                            }
                        }
                    }
                }
                if has != owes {
                    return false;
                }
                j2 += 1;
            }
            let mut t: usize = 0;
            while t < self.inflight[e].tokens.len()
                invariant
                    e < self.inflight@.len(),
                    t <= self.inflight@[e as int].tokens@.len(),
                    forall|m: int| 0 <= m < t
                        ==> exists|j3: int| 0 <= j3 < self.workers@.len()
                            && self.workers@[j3].token == Some(#[trigger] self.inflight@[e as int].tokens@[m]),
                decreases self.inflight@[e as int].tokens@.len() - t,
            {
                let tv = self.inflight[e].tokens[t];
                match find_sworker_idx(&self.workers, tv) {
                    Some(_) => {},
                    None => {
                        proof {
                            assert(self.inflight@[e as int].has_token(tv)) by {
                                assert(self.inflight@[e as int].tokens@[t as int] == tv);
                            }
                        }
                        return false;
                    },
                }
                t += 1;
            }
            proof {
                assert forall|t2: u32| #[trigger] self.inflight@[e as int].has_token(t2) implies
                    exists|j3: int| 0 <= j3 < self.workers@.len()
                        && self.workers@[j3].token == Some(t2) by {
                    let m = choose|m: int| 0 <= m < self.inflight@[e as int].tokens@.len()
                        && self.inflight@[e as int].tokens@[m] == t2;
                    assert(exists|j3: int| 0 <= j3 < self.workers@.len()
                        && self.workers@[j3].token == Some(self.inflight@[e as int].tokens@[m]));
                }
            }
            e += 1;
        }
        let mut j: usize = 0;
        while j < self.workers.len()
            invariant
                j <= self.workers@.len(),
                forall|j2: int, k2: int|
                    0 <= j2 < j && 0 <= k2 < self.workers@[j2].inflight@.len()
                        ==> self.has_entry((#[trigger] self.workers@[j2].inflight@[k2]).0@),
            decreases self.workers@.len() - j,
        {
            let mut k: usize = 0;
            while k < self.workers[j].inflight.len()
                invariant
                    j < self.workers@.len(),
                    k <= self.workers@[j as int].inflight@.len(),
                    forall|k2: int| 0 <= k2 < k
                        ==> self.has_entry((#[trigger] self.workers@[j as int].inflight@[k2]).0@),
                decreases self.workers@[j as int].inflight@.len() - k,
            {
                match find_entry_idx(&self.inflight, &self.workers[j].inflight[k].0) {
                    Some(_) => {},
                    None => {
                        proof {
                            if self.has_entry(self.workers@[j as int].inflight@[k as int].0@) {
                                let m = choose|m: int| 0 <= m < self.inflight@.len()
                                    && self.inflight@[m].id@ == self.workers@[j as int].inflight@[k as int].0@;
                                assert(false);
                            }
                        }
                        return false;
                    },
                }
                k += 1;
            }
            j += 1;
        }
        true
    }
}

fn find_key_idx_upto(v: &Vec<(String, Order)>, i: usize) -> (r: Option<usize>)
    requires
        i < v@.len(),
    ensures
        match r {
            Some(j) => j < i && v@[j as int].0@ == v@[i as int].0@,
            None => forall|k: int| 0 <= k < i ==> v@[k].0@ != v@[i as int].0@,
        },
{
    let mut k: usize = 0;
    while k < i
        invariant
            k <= i,
            i < v@.len(),
            forall|m: int| 0 <= m < k ==> v@[m].0@ != v@[i as int].0@,
        decreases i - k,
    {
        if v[k].0 == v[i].0 {
            return Some(k);
        }
        k += 1;
    }
    None
}

impl CommandServer {
    /// Applies the statically configured orders (already decoded from the
    /// configuration, wrapped as `ProxyConfiguration` frames) to the
    /// authoritative state and queues each one, under its frame's id, to
    /// every running worker. Returns the frames actually sent.
    #[verifier::rlimit(60)]
    pub fn load_static_application_configuration(&mut self, messages: &Vec<ConfigMessage>) -> (r: Vec<OrderMessage>)
        requires
            old(self).wf(),
        ensures
            final(self).wf(),
            final(self).state@ == apply_seq(old(self).state@, frame_orders(messages@)),
            *final(self) == (CommandServer {
                state: final(self).state,
                proxies: final(self).proxies,
                ..*old(self)
            }),
            final(self).proxies@.len() == old(self).proxies@.len(),
            forall|k: int| 0 <= k < r@.len() ==> exists|m: int|
                0 <= m < messages@.len()
                && (#[trigger] r@[k]).id@ == messages@[m].id@
                && (messages@[m].data matches ConfigCommand::ProxyConfiguration(o)
                    && r@[k].order@ == o@),
            forall|j: int| 0 <= j < old(self).proxies@.len() ==> {
                let ow = #[trigger] old(self).proxies@[j];
                let nw = final(self).proxies@[j];
                if ow.run_state == RunState::Running {
                    &&& nw == (Worker { outbox: nw.outbox, ..ow })
                    &&& nw.outbox@ == ow.outbox@ + r@
                } else {
                    nw == ow
                }
            },
    {
        let ghost g = *self;
        let mut added: Vec<OrderMessage> = Vec::new();
        let mut i: usize = 0;
        while i < messages.len()
            invariant
                i <= messages@.len(),
                self.wf(),
                self.state@ == apply_seq(g.state@, frame_orders(messages@).take(i as int)),
                *self == (CommandServer { state: self.state, ..g }),
                forall|k: int| 0 <= k < added@.len() ==> exists|m: int|
                    0 <= m < messages@.len()
                    && (#[trigger] added@[k]).id@ == messages@[m].id@
                    && (messages@[m].data matches ConfigCommand::ProxyConfiguration(o)
                        && added@[k].order@ == o@),
            decreases messages@.len() - i,
        {
            let ghost pres = self.state@;
            match &messages[i].data {
                ConfigCommand::ProxyConfiguration(o) => {
                    self.state.handle_order(o);
                    let msg = OrderMessage { id: messages[i].id.clone(), order: o.clone() };
                    let ghost mv = msg;
                    let ghost pa = added@;
                    added.push(msg);
                    proof {
                        assert(mv.id@ == messages@[i as int].id@);
                        assert(messages@[i as int].data matches ConfigCommand::ProxyConfiguration(o2)
                            && mv.order@ == o2@);
                        assert forall|k: int| 0 <= k < added@.len() implies exists|m: int|
                            0 <= m < messages@.len()
                            && (#[trigger] added@[k]).id@ == messages@[m].id@
                            && (messages@[m].data matches ConfigCommand::ProxyConfiguration(o3)
                                && added@[k].order@ == o3@) by {
                            if k < pa.len() {
                                assert(added@[k] == pa[k]);
                            } else {
                                assert(added@[k] == mv);
                                assert(0 <= i < messages@.len()
                                    && mv.id@ == messages@[i as int].id@
                                    && (messages@[i as int].data matches ConfigCommand::ProxyConfiguration(o3)
                                        && mv.order@ == o3@));
                            }
                        }
                    }
                },
                _ => {},
            }
            proof {
                assert(frame_orders(messages@).take(i as int + 1)
                    =~= frame_orders(messages@).take(i as int).push(frame_order(messages@[i as int])));
                lemma_apply_seq_push(g.state@, frame_orders(messages@).take(i as int),
                    frame_order(messages@[i as int]));
                assert(self.state@ == apply(pres, frame_order(messages@[i as int])));
                assert(self.proxies == g.proxies);
                assert(self.inflight == g.inflight);
                assert(self.conns == g.conns);
            }
            i += 1;
        }
        proof {
            assert(frame_orders(messages@).take(messages@.len() as int) =~= frame_orders(messages@));
        }
        let ghost g1 = *self;
        let ghost av = added@;
        let mut j: usize = 0;
        while j < self.proxies.len()
            invariant
                j <= self.proxies@.len(),
                self.wf(),
                g1.wf(),
                added@ == av,
                self.proxies@.len() == g1.proxies@.len(),
                *self == (CommandServer { proxies: self.proxies, ..g1 }),
                forall|j2: int| j <= j2 < g1.proxies@.len()
                    ==> #[trigger] self.proxies@[j2] == g1.proxies@[j2],
                forall|j2: int| 0 <= j2 < j ==> {
                    let ow = #[trigger] g1.proxies@[j2];
                    let nw = self.proxies@[j2];
                    if ow.run_state == RunState::Running {
                        &&& nw == (Worker { outbox: nw.outbox, ..ow })
                        &&& nw.outbox@ == ow.outbox@ + av
                    } else {
                        nw == ow
                    }
                },
            decreases self.proxies@.len() - j,
        {
            let ghost gw = *self;
            if self.proxies[j].run_state == RunState::Running {
                let mut a2 = clone_order_messages(&added);
                self.proxies[j].outbox.append(&mut a2);
                proof {
                    assert(self.proxies@[j as int].outbox@
                        == gw.proxies@[j as int].outbox@ + av);
                    lemma_wf_outbox_only(gw, *self);
                    assert forall|j2: int| 0 <= j2 < j + 1 implies {
                        let ow = #[trigger] g1.proxies@[j2];
                        let nw = self.proxies@[j2];
                        if ow.run_state == RunState::Running {
                            &&& nw == (Worker { outbox: nw.outbox, ..ow })
                            &&& nw.outbox@ == ow.outbox@ + av
                        } else {
                            nw == ow
                        }
                    } by {
                        if j2 != j as int {
                            assert(self.proxies@[j2] == gw.proxies@[j2]);
                        }
                    }
                }
            }
            j += 1;
        }
        added
    }
}

fn clone_order_messages(v: &Vec<OrderMessage>) -> (r: Vec<OrderMessage>)
    ensures
        r@ == v@,
{
    let mut r: Vec<OrderMessage> = Vec::new();
    let mut i: usize = 0;
    while i < v.len()
        invariant
            i <= v@.len(),
            r@ =~= v@.take(i as int),
        decreases v@.len() - i,
    {
        r.push(v[i].clone());
        proof {
            assert(r@ =~= v@.take(i as int + 1));
        }
        i += 1;
    }
    proof {
        assert(v@.take(v@.len() as int) =~= v@);
    }
    r
}

} // verus!
