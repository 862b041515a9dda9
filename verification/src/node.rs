//! The hosting substrate, modelled explicitly.
//!
//! A [`Node`] owns every process: its mailbox, its links, its request
//! bookkeeping and its captured quotas.  All cross-process effects go
//! through the operations defined here; no two processes share any mutable
//! state.  The handle types in [`crate::environment`] are thin references
//! into a node.
//!
//! The dispatch discipline is cooperative and strictly serial per process:
//! [`Node::dispatch_next`] hands out inbound items one at a time in mailbox
//! order, and a process with an outstanding request is blocked until
//! [`Node::poll_reply`] resolves it — by a correlated reply or by its
//! deadline.

use vstd::prelude::*;
use crate::environment::{namespace_allowed, ns_allowed, str_bytes, EnvConfig};
use crate::params::{Param, ParamKind};
use crate::semver::Version;
use vstd::string::StringSliceAdditionalSpecFns;

verus! {

/// Why a process terminated abnormally.
#[derive(Clone, Copy, PartialEq, Eq, Structural, Debug)]
pub enum Fault {
    /// The process exceeded its memory limit.
    OutOfMemory,
    /// The process exhausted its compute budget.
    OutOfFuel,
    /// The process called a host function outside its allowed namespaces.
    NotAllowed,
    /// The process was killed explicitly.
    Killed,
    /// The process failed internally.
    Failure,
}

/// The lifecycle state of a process.
#[derive(Clone, Copy, PartialEq, Eq, Structural, Debug)]
pub enum Status {
    Running,
    /// Returned normally; normal return does not propagate over links.
    Finished,
    /// Terminated abnormally; every linked peer is notified exactly once.
    Failed(Fault),
}

/// An inbound mailbox item.
#[derive(Debug)]
pub enum Envelope {
    /// A fire-and-forget message.
    Message { sender: u64, payload: Vec<u8> },
    /// A request expecting a single correlated reply.
    Request { sender: u64, tag: u64, payload: Vec<u8> },
    /// The reply to the request with the same correlation tag.
    Reply { tag: u64, payload: Vec<u8> },
    /// A termination notification from a linked peer.
    Exit { from: u64, fault: Fault },
}

/// The outstanding blocking request of a process, if any.
#[derive(Clone, Copy, PartialEq, Eq, Structural, Debug)]
pub struct PendingRequest {
    pub tag: u64,
    /// Absolute instant after which the caller stops waiting.
    pub deadline: Option<u64>,
}

/// The state of one process, owned by the node.
pub struct ProcessState {
    pub id: u64,
    pub env_id: u64,
    pub status: Status,
    /// Whether the process handles exit notifications as messages instead of
    /// dying with the peer.
    pub trapping: bool,
    pub mailbox: Vec<Envelope>,
    /// Identifiers of linked peers; symmetric, no duplicates, never the
    /// process itself.
    pub links: Vec<u64>,
    pub pending: Option<PendingRequest>,
    /// Correlation tags of timed-out requests whose late replies must be
    /// drained without dispatch.
    pub stale: Vec<u64>,
    pub memory_limit: u64,
    pub compute_budget: u64,
    pub memory_used: u64,
    pub fuel_used: u64,
}

/// An entry point a module exports: a name and the declared parameter kinds.
pub struct Export {
    pub name: String,
    pub param_kinds: Vec<ParamKind>,
}

/// A created environment: frozen quotas and capability grants.
pub struct EnvState {
    pub id: u64,
    pub config: EnvConfig,
}

/// A compiled module bound to an environment.
pub struct ModuleState {
    pub id: u64,
    pub env_id: u64,
    pub exports: Vec<Export>,
}

/// A registry entry: a name and exact version bound to a process identifier
/// within an environment.
pub struct RegEntry {
    pub env_id: u64,
    pub name: String,
    pub version: Version,
    pub pid: u64,
}

/// A message scheduled for later delivery.
pub struct Delayed {
    pub release: u64,
    pub seq: u64,
    pub sender: u64,
    pub receiver: u64,
    pub payload: Vec<u8>,
}

/// The hosting substrate: all process, environment, module, registry and
/// timer state of one node.
pub struct Node {
    pub now: u64,
    pub next_pid: u64,
    pub next_tag: u64,
    pub next_env_id: u64,
    pub next_module_id: u64,
    pub next_delay_seq: u64,
    pub processes: Vec<ProcessState>,
    pub delayed: Vec<Delayed>,
    pub envs: Vec<EnvState>,
    pub modules: Vec<ModuleState>,
    pub registry: Vec<RegEntry>,
    /// The exports of the currently running module, used when an
    /// environment spawns from it.
    pub this_exports: Vec<Export>,
}

// ---------------------------------------------------------------------------
// Spec accessors.
// ---------------------------------------------------------------------------

pub open spec fn is_exit_from(e: Envelope, from: u64) -> bool {
    match e {
        Envelope::Exit { from: f, fault: _ } => f == from,
        _ => false,
    }
}

pub open spec fn is_exit(e: Envelope) -> bool {
    match e {
        Envelope::Exit { .. } => true,
        _ => false,
    }
}

pub open spec fn is_reply(e: Envelope) -> bool {
    match e {
        Envelope::Reply { .. } => true,
        _ => false,
    }
}

/// How many exit notifications from `from` a mailbox holds.
pub open spec fn exit_count(mb: Seq<Envelope>, from: u64) -> int
    decreases mb.len(),
{
    if mb.len() == 0 {
        0
    } else {
        exit_count(mb.drop_last(), from) + if is_exit_from(mb.last(), from) {
            1int
        } else {
            0int
        }
    }
}

/// Tag bound on an envelope: correlation tags are always below the node's
/// tag counter, so a tag is never reused.
pub open spec fn env_tag_ok(e: Envelope, bound: u64) -> bool {
    match e {
        Envelope::Request { tag, .. } => tag < bound,
        Envelope::Reply { tag, .. } => tag < bound,
        _ => true,
    }
}

pub open spec fn delayed_lt(a: Delayed, b: Delayed) -> bool {
    a.release < b.release || (a.release == b.release && a.seq < b.seq)
}

pub open spec fn same_reg_key(a: RegEntry, b: RegEntry) -> bool {
    a.env_id == b.env_id && str_bytes(a.name@) == str_bytes(b.name@) && a.version == b.version
}

impl Node {
    pub open spec fn has_proc(self, pid: u64) -> bool {
        exists|i: int| 0 <= i < self.processes@.len() && (#[trigger] self.processes@[i]).id == pid
    }

    pub open spec fn proc_idx(self, pid: u64) -> int {
        choose|i: int| 0 <= i < self.processes@.len() && (#[trigger] self.processes@[i]).id == pid
    }

    pub open spec fn proc(self, pid: u64) -> ProcessState {
        self.processes@[self.proc_idx(pid)]
    }

    pub open spec fn is_running(self, pid: u64) -> bool {
        self.has_proc(pid) && self.proc(pid).status is Running
    }

    pub open spec fn has_env(self, id: u64) -> bool {
        exists|i: int| 0 <= i < self.envs@.len() && (#[trigger] self.envs@[i]).id == id
    }

    pub open spec fn env_idx(self, id: u64) -> int {
        choose|i: int| 0 <= i < self.envs@.len() && (#[trigger] self.envs@[i]).id == id
    }

    pub open spec fn env_st(self, id: u64) -> EnvState {
        self.envs@[self.env_idx(id)]
    }

    pub open spec fn has_module(self, id: u64) -> bool {
        exists|i: int| 0 <= i < self.modules@.len() && (#[trigger] self.modules@[i]).id == id
    }

    pub open spec fn module_idx(self, id: u64) -> int {
        choose|i: int| 0 <= i < self.modules@.len() && (#[trigger] self.modules@[i]).id == id
    }

    pub open spec fn module_st(self, id: u64) -> ModuleState {
        self.modules@[self.module_idx(id)]
    }

    /// Two processes are linked: each holds the other among its links.
    pub open spec fn linked(self, a: u64, b: u64) -> bool {
        self.has_proc(a) && self.has_proc(b) && self.proc(a).links@.contains(b)
            && self.proc(b).links@.contains(a)
    }

    // -----------------------------------------------------------------------
    // Well-formedness.
    // -----------------------------------------------------------------------

    pub open spec fn wf_ids(self) -> bool {
        &&& forall|i: int, j: int|
            0 <= i < j < self.processes@.len() ==> (#[trigger] self.processes@[i]).id != (
            #[trigger] self.processes@[j]).id
        &&& forall|i: int|
            0 <= i < self.processes@.len() ==> (#[trigger] self.processes@[i]).id < self.next_pid
        &&& forall|i: int, j: int|
            0 <= i < j < self.envs@.len() ==> (#[trigger] self.envs@[i]).id != (
            #[trigger] self.envs@[j]).id
        &&& forall|i: int|
            0 <= i < self.envs@.len() ==> (#[trigger] self.envs@[i]).id < self.next_env_id
        &&& forall|i: int, j: int|
            0 <= i < j < self.modules@.len() ==> (#[trigger] self.modules@[i]).id != (
            #[trigger] self.modules@[j]).id
        &&& forall|i: int|
            0 <= i < self.modules@.len() ==> (#[trigger] self.modules@[i]).id < self.next_module_id
    }

    /// The link clauses for one link slot: not a self-link, no duplicate,
    /// and the target exists and points back.
    pub open spec fn link_ok(self, i: int, k: int) -> bool {
        let p = self.processes@[i];
        let t = p.links@[k];
        &&& t != p.id
        &&& forall|k2: int| 0 <= k2 < p.links@.len() && k2 != k ==> p.links@[k2] != t
        &&& exists|j: int|
            0 <= j < self.processes@.len() && (#[trigger] self.processes@[j]).id == t
                && self.processes@[j].links@.contains(p.id)
    }

    pub open spec fn wf_links_at(self, i: int) -> bool {
        let p = self.processes@[i];
        &&& (!(p.status is Running) ==> p.links@.len() == 0)
        &&& forall|k: int| 0 <= k < p.links@.len() ==> #[trigger] self.link_ok(i, k)
    }

    pub open spec fn wf_links(self) -> bool {
        forall|i: int| 0 <= i < self.processes@.len() ==> #[trigger] self.wf_links_at(i)
    }

    pub open spec fn wf_tags_at(self, i: int) -> bool {
        let p = self.processes@[i];
        &&& (p.pending matches Some(pr) ==> pr.tag < self.next_tag)
        &&& forall|k: int| 0 <= k < p.stale@.len() ==> (#[trigger] p.stale@[k]) < self.next_tag
        &&& forall|k: int|
            0 <= k < p.mailbox@.len() ==> env_tag_ok(#[trigger] p.mailbox@[k], self.next_tag)
    }

    pub open spec fn wf_tags(self) -> bool {
        forall|i: int| 0 <= i < self.processes@.len() ==> #[trigger] self.wf_tags_at(i)
    }

    pub open spec fn wf_quotas_at(self, i: int) -> bool {
        let p = self.processes@[i];
        &&& p.memory_used <= p.memory_limit
        &&& (p.compute_budget > 0 ==> p.fuel_used <= p.compute_budget)
    }

    pub open spec fn wf_quotas(self) -> bool {
        forall|i: int| 0 <= i < self.processes@.len() ==> #[trigger] self.wf_quotas_at(i)
    }

    pub open spec fn wf_refs(self) -> bool {
        &&& forall|i: int|
            0 <= i < self.processes@.len() ==> self.has_env((#[trigger] self.processes@[i]).env_id)
        &&& forall|i: int|
            0 <= i < self.modules@.len() ==> self.has_env((#[trigger] self.modules@[i]).env_id)
    }

    pub open spec fn wf_delayed(self) -> bool {
        &&& forall|i: int, j: int|
            0 <= i < j < self.delayed@.len() ==> delayed_lt(
                #[trigger] self.delayed@[i],
                #[trigger] self.delayed@[j],
            )
        &&& forall|i: int|
            0 <= i < self.delayed@.len() ==> (#[trigger] self.delayed@[i]).seq
                < self.next_delay_seq
    }

    pub open spec fn wf_registry(self) -> bool {
        forall|i: int, j: int|
            0 <= i < j < self.registry@.len() ==> !same_reg_key(
                #[trigger] self.registry@[i],
                #[trigger] self.registry@[j],
            )
    }

    /// The node invariant: every operation preserves it.
    pub open spec fn wf(self) -> bool {
        &&& self.wf_ids()
        &&& self.wf_links()
        &&& self.wf_tags()
        &&& self.wf_quotas()
        &&& self.wf_refs()
        &&& self.wf_delayed()
        &&& self.wf_registry()
    }

    /// The index a process identifier resolves to is unique.
    pub proof fn lemma_proc_idx(self, pid: u64)
        requires
            self.wf_ids(),
            self.has_proc(pid),
        ensures
            0 <= self.proc_idx(pid) < self.processes@.len(),
            self.processes@[self.proc_idx(pid)].id == pid,
            forall|i: int|
                0 <= i < self.processes@.len() && (#[trigger] self.processes@[i]).id == pid ==> i
                    == self.proc_idx(pid),
    {
        let x = self.proc_idx(pid);
        assert(0 <= x < self.processes@.len() && self.processes@[x].id == pid);
    }

    pub proof fn lemma_env_idx(self, id: u64)
        requires
            self.wf_ids(),
            self.has_env(id),
        ensures
            0 <= self.env_idx(id) < self.envs@.len(),
            self.envs@[self.env_idx(id)].id == id,
            forall|i: int|
                0 <= i < self.envs@.len() && (#[trigger] self.envs@[i]).id == id ==> i
                    == self.env_idx(id),
    {
        let x = self.env_idx(id);
        assert(0 <= x < self.envs@.len() && self.envs@[x].id == id);
    }

    pub proof fn lemma_module_idx(self, id: u64)
        requires
            self.wf_ids(),
            self.has_module(id),
        ensures
            0 <= self.module_idx(id) < self.modules@.len(),
            self.modules@[self.module_idx(id)].id == id,
            forall|i: int|
                0 <= i < self.modules@.len() && (#[trigger] self.modules@[i]).id == id ==> i
                    == self.module_idx(id),
    {
        let x = self.module_idx(id);
        assert(0 <= x < self.modules@.len() && self.modules@[x].id == id);
    }

    // -----------------------------------------------------------------------
    // Construction and lookup.
    // -----------------------------------------------------------------------

    /// A fresh node with no processes.  `this_exports` describes the entry
    /// points of the currently running module.
    pub fn new(this_exports: Vec<Export>) -> (r: Node)
        ensures
            r.wf(),
            r.now == 0,
            r.processes@.len() == 0,
            r.delayed@.len() == 0,
            r.envs@.len() == 0,
            r.modules@.len() == 0,
            r.registry@.len() == 0,
            r.this_exports == this_exports,
            r.next_pid == 0,
            r.next_tag == 0,
            r.next_env_id == 0,
            r.next_module_id == 0,
            r.next_delay_seq == 0,
    {
        Node {
            now: 0,
            next_pid: 0,
            next_tag: 0,
            next_env_id: 0,
            next_module_id: 0,
            next_delay_seq: 0,
            processes: Vec::new(),
            delayed: Vec::new(),
            envs: Vec::new(),
            modules: Vec::new(),
            registry: Vec::new(),
            this_exports,
        }
    }

    fn find_proc(&self, pid: u64) -> (r: Option<usize>)
        ensures
            match r {
                Some(i) => i < self.processes@.len() && self.processes@[i as int].id == pid,
                None => !self.has_proc(pid),
            },
    {
        let mut i: usize = 0;
        while i < self.processes.len()
            invariant
                0 <= i <= self.processes@.len(),
                forall|m: int| 0 <= m < i ==> (#[trigger] self.processes@[m]).id != pid,
            decreases self.processes@.len() - i,
        {
            if self.processes[i].id == pid {
                return Some(i);
            }
            i += 1;
        }
        None
    }

    fn find_env(&self, id: u64) -> (r: Option<usize>)
        ensures
            match r {
                Some(i) => i < self.envs@.len() && self.envs@[i as int].id == id,
                None => !self.has_env(id),
            },
    {
        let mut i: usize = 0;
        while i < self.envs.len()
            invariant
                0 <= i <= self.envs@.len(),
                forall|m: int| 0 <= m < i ==> (#[trigger] self.envs@[m]).id != id,
            decreases self.envs@.len() - i,
        {
            if self.envs[i].id == id {
                return Some(i);
            }
            i += 1;
        }
        None
    }

    fn find_module(&self, id: u64) -> (r: Option<usize>)
        ensures
            match r {
                Some(i) => i < self.modules@.len() && self.modules@[i as int].id == id,
                None => !self.has_module(id),
            },
    {
        let mut i: usize = 0;
        while i < self.modules.len()
            invariant
                0 <= i <= self.modules@.len(),
                forall|m: int| 0 <= m < i ==> (#[trigger] self.modules@[m]).id != id,
            decreases self.modules@.len() - i,
        {
            if self.modules[i].id == id {
                return Some(i);
            }
            i += 1;
        }
        None
    }
}

// ---------------------------------------------------------------------------
// Relations between a node before and after an operation.
// ---------------------------------------------------------------------------

/// Everything but the process table and the timer queue is unchanged.
pub open spec fn unchanged_meta(a: Node, b: Node) -> bool {
    &&& b.now == a.now
    &&& b.next_pid == a.next_pid
    &&& b.next_tag == a.next_tag
    &&& b.next_env_id == a.next_env_id
    &&& b.next_module_id == a.next_module_id
    &&& b.next_delay_seq == a.next_delay_seq
    &&& b.envs@ == a.envs@
    &&& b.modules@ == a.modules@
    &&& b.registry@ == a.registry@
    &&& b.this_exports@ == a.this_exports@
}

/// The identity, configuration and request bookkeeping of a process are
/// unchanged.
pub open spec fn proc_core_eq(pa: ProcessState, pb: ProcessState) -> bool {
    &&& pb.id == pa.id
    &&& pb.env_id == pa.env_id
    &&& pb.trapping == pa.trapping
    &&& pb.pending == pa.pending
    &&& pb.stale@ == pa.stale@
    &&& pb.memory_limit == pa.memory_limit
    &&& pb.compute_budget == pa.compute_budget
    &&& pb.memory_used == pa.memory_used
    &&& pb.fuel_used == pa.fuel_used
}

/// A process is unchanged but for its mailbox.
pub open spec fn proc_eq_except_mailbox(pa: ProcessState, pb: ProcessState) -> bool {
    &&& proc_core_eq(pa, pb)
    &&& pb.status == pa.status
    &&& pb.links@ == pa.links@
}

/// `x` can die in the failure cascade from `pid`: in `a`, a chain of links
/// of length at most `n + 1` leads from `pid` to `x`, and every process on
/// the chain after `pid` — `x` included — is running and does not trap
/// exits.
pub open spec fn doomed_via(a: Node, pid: u64, x: u64, n: nat) -> bool
    decreases n,
{
    &&& x != pid
    &&& a.has_proc(x)
    &&& a.proc(x).status is Running
    &&& !a.proc(x).trapping
    &&& (a.proc(x).links@.contains(pid) || (n > 0 && exists|y: u64|
        #[trigger] a.proc(x).links@.contains(y) && doomed_via(a, pid, y, (n - 1) as nat)))
}

/// `x` is reachable by the failure cascade from `pid` over actual links.
/// A process with no link path to `pid` is never doomed; in particular one
/// with no links at all.
pub open spec fn doomed(a: Node, pid: u64, x: u64) -> bool {
    exists|n: nat| doomed_via(a, pid, x, n)
}

/// `s` is one of the processes that die in the step from `a` to `b`: the
/// process under termination itself, or a cascade victim.
pub open spec fn died_in(a: Node, b: Node, pid: u64, s: u64) -> bool {
    ||| s == pid
    ||| exists|j: int|
        0 <= j < a.processes@.len() && (#[trigger] a.processes@[j]).id == s
            && a.processes@[j].status is Running && !(b.processes@[j].status is Running)
}

/// What abnormal termination of `pid` with cause `fault` does to the node:
/// `pid` fails and loses its links; every linked running peer is, exactly
/// once, either handed one exit notification (if it traps exits) or failed
/// with the same cause; failure cascades over the links of peers that died
/// this way — and over nothing else, so processes without a link path to a
/// dying process are untouched; nothing else changes.
pub open spec fn terminated(a: Node, b: Node, pid: u64, fault: Fault) -> bool {
    &&& unchanged_meta(a, b)
    &&& b.delayed@ == a.delayed@
    &&& b.processes@.len() == a.processes@.len()
    &&& forall|i: int| 0 <= i < a.processes@.len() ==> #[trigger] terminated_at(a, b, pid, fault, i)
}

/// The per-process clauses of [`terminated`].
pub open spec fn terminated_at(a: Node, b: Node, pid: u64, fault: Fault, i: int) -> bool {
    let pa = a.processes@[i];
    let pb = b.processes@[i];
    &&& proc_core_eq(pa, pb)
    &&& (pa.id == pid ==> pb.status == Status::Failed(fault) && pb.links@.len() == 0 && pb.mailbox@
        == pa.mailbox@)
    &&& (pa.id != pid ==> {
        // mailboxes only grow, and only by exit notifications
        &&& pa.mailbox@.is_prefix_of(pb.mailbox@)
        &&& forall|k: int|
            pa.mailbox@.len() <= k < pb.mailbox@.len() ==> is_exit(#[trigger] pb.mailbox@[k])
        // exit notifications are pinned per source: exactly one from each
        // process that died in this step to each of its linked running
        // trapping peers, and none from anyone else — no phantom exits
        &&& forall|s: u64|
            exit_count(pb.mailbox@, s) == exit_count(pa.mailbox@, s) + (if pa.links@.contains(s)
                && pa.status is Running && pa.trapping && died_in(a, b, pid, s) {
                1int
            } else {
                0int
            })
        // a trapping process never dies of a link
        &&& (pa.trapping ==> pb.status == pa.status)
        // the only status change is linked death with the same cause
        &&& (pb.status == pa.status || (pa.status is Running && !pa.trapping && pb.status
            == Status::Failed(fault)))
        // and it strikes only along an actual link path from the dead
        // process: unlinked bystanders keep their status
        &&& (pb.status != pa.status ==> doomed(a, pid, pa.id))
        // a linked running peer that does not trap exits dies
        &&& (pa.links@.contains(pid) && pa.status is Running && !pa.trapping ==> pb.status
            == Status::Failed(fault))
        // processes that were already terminated are untouched
        &&& (!(pa.status is Running) ==> pb.mailbox@ == pa.mailbox@ && pb.links@ == pa.links@)
        // every link to the dead process is gone: re-notification is
        // impossible
        &&& !pb.links@.contains(pid)
        // links are only removed, never added, and a surviving process lost
        // only its links to the dead
        &&& forall|k: int| 0 <= k < pb.links@.len() ==> pa.links@.contains(#[trigger] pb.links@[k])
        &&& (pb.status is Running ==> forall|t: u64|
            pa.links@.contains(t) && !pb.links@.contains(t) ==> died_in(a, b, pid, t))
    })
}

/// How many of the processes are running.
pub open spec fn running_count(s: Seq<ProcessState>) -> nat
    decreases s.len(),
{
    if s.len() == 0 {
        0
    } else {
        running_count(s.drop_last()) + if s.last().status is Running {
            1nat
        } else {
            0nat
        }
    }
}

proof fn lemma_running_count_update(s: Seq<ProcessState>, i: int, p: ProcessState)
    requires
        0 <= i < s.len(),
    ensures
        running_count(s.update(i, p)) + (if s[i].status is Running {
            1int
        } else {
            0int
        }) == running_count(s) + (if p.status is Running {
            1int
        } else {
            0int
        }),
    decreases s.len(),
{
    if i == s.len() - 1 {
        assert(s.update(i, p).drop_last() =~= s.drop_last());
    } else {
        assert(s.update(i, p).drop_last() =~= s.drop_last().update(i, p));
        lemma_running_count_update(s.drop_last(), i, p);
    }
}

proof fn lemma_exit_count_push(mb: Seq<Envelope>, e: Envelope, from: u64)
    ensures
        exit_count(mb.push(e), from) == exit_count(mb, from) + (if is_exit_from(e, from) {
            1int
        } else {
            0int
        }),
{
    assert(mb.push(e).drop_last() =~= mb);
    assert(mb.push(e).last() == e);
}

/// Worklist entries of the failure-propagation loop.
pub open spec fn wl_has(wl: Seq<(u64, u64)>, d: u64, u: u64) -> bool {
    wl.contains((d, u))
}

spec fn wl_entry_core(a: Node, b: Node, pid: u64, fault: Fault, e: (u64, u64)) -> bool {
    &&& e.0 != e.1
    &&& exists|j: int|
        0 <= j < b.processes@.len() && (#[trigger] b.processes@[j]).id == e.0
            && b.processes@[j].status == Status::Failed(fault) && b.processes@[j].links@.len() == 0
    &&& exists|j: int| 0 <= j < b.processes@.len() && (#[trigger] b.processes@[j]).id == e.1
    &&& (e.0 == pid ==> exists|j: int|
        0 <= j < a.processes@.len() && (#[trigger] a.processes@[j]).id == e.1
            && a.processes@[j].links@.contains(pid) && a.processes@[j].status is Running)
}

spec fn wl_entry_extra(a: Node, b: Node, pid: u64, e: (u64, u64)) -> bool {
    &&& died_in(a, b, pid, e.0)
    &&& (e.0 == pid || doomed(a, pid, e.0))
    &&& exists|j: int|
        0 <= j < b.processes@.len() && (#[trigger] b.processes@[j]).id == e.1 && (
        b.processes@[j].links@.contains(e.0) || !(b.processes@[j].status is Running))
}

spec fn wl_entry_ok(a: Node, b: Node, pid: u64, fault: Fault, e: (u64, u64)) -> bool {
    &&& wl_entry_core(a, b, pid, fault, e)
    &&& wl_entry_extra(a, b, pid, e)
}

spec fn term_wl_ok(a: Node, b: Node, pid: u64, fault: Fault, wl: Seq<(u64, u64)>) -> bool {
    &&& forall|k: int| 0 <= k < wl.len() ==> wl_entry_ok(a, b, pid, fault, #[trigger] wl[k])
    &&& forall|k1: int, k2: int| 0 <= k1 < k2 < wl.len() ==> wl[k1] != wl[k2]
}

/// Link symmetry, weakened by the worklist: a one-sided link is always
/// queued for removal.
spec fn term_sym_at(b: Node, wl: Seq<(u64, u64)>, i: int, k: int) -> bool {
    let p = b.processes@[i];
    let t = p.links@[k];
    exists|j: int|
        0 <= j < b.processes@.len() && (#[trigger] b.processes@[j]).id == t && (
        b.processes@[j].links@.contains(p.id) || wl_has(wl, t, p.id))
}

spec fn term_sym(b: Node, wl: Seq<(u64, u64)>) -> bool {
    forall|i: int, k: int|
        0 <= i < b.processes@.len() && 0 <= k < b.processes@[i].links@.len()
            ==> #[trigger] term_sym_at(b, wl, i, k)
}

/// The structural half of the per-process loop invariant.
spec fn term_inv_core_at(
    a: Node,
    b: Node,
    pid: u64,
    fault: Fault,
    wl: Seq<(u64, u64)>,
    i: int,
) -> bool {
    let pa = a.processes@[i];
    let pb = b.processes@[i];
    &&& proc_core_eq(pa, pb)
    &&& (pa.id == pid ==> pb.status == Status::Failed(fault) && pb.links@.len() == 0 && pb.mailbox@
        == pa.mailbox@)
    &&& (pa.id != pid ==> {
        &&& pa.mailbox@.is_prefix_of(pb.mailbox@)
        &&& forall|k: int|
            pa.mailbox@.len() <= k < pb.mailbox@.len() ==> is_exit(#[trigger] pb.mailbox@[k])
        &&& exit_count(pb.mailbox@, pid) == exit_count(pa.mailbox@, pid) + (if pa.links@.contains(
            pid,
        ) && pa.status is Running && pa.trapping && !wl_has(wl, pid, pa.id) {
            1int
        } else {
            0int
        })
        &&& (pa.trapping ==> pb.status == pa.status)
        &&& (pb.status == pa.status || (pa.status is Running && !pa.trapping && pb.status
            == Status::Failed(fault)))
        &&& (pa.links@.contains(pid) && pa.status is Running && !pa.trapping ==> pb.status
            == Status::Failed(fault) || wl_has(wl, pid, pa.id))
        &&& (!(pa.status is Running) ==> pb.mailbox@ == pa.mailbox@ && pb.links@ == pa.links@)
        &&& (pb.links@.contains(pid) ==> wl_has(wl, pid, pa.id))
        &&& forall|k: int| 0 <= k < pb.links@.len() ==> pa.links@.contains(#[trigger] pb.links@[k])
        &&& forall|k1: int, k2: int|
            0 <= k1 < k2 < pb.links@.len() ==> pb.links@[k1] != pb.links@[k2]
        &&& forall|k: int| 0 <= k < pb.links@.len() ==> pb.links@[k] != pb.id
        &&& (!(pb.status is Running) ==> pb.links@.len() == 0)
    })
}

/// The accounting half of the per-process loop invariant: exit
/// notifications pinned per source, status changes tied to the cascade,
/// link removals tied to deaths.
spec fn term_inv_extra_at(
    a: Node,
    b: Node,
    pid: u64,
    fault: Fault,
    wl: Seq<(u64, u64)>,
    i: int,
) -> bool {
    let pa = a.processes@[i];
    let pb = b.processes@[i];
    pa.id != pid ==> {
        &&& forall|s: u64|
            exit_count(pb.mailbox@, s) == exit_count(pa.mailbox@, s) + (if pa.links@.contains(s)
                && pa.status is Running && pa.trapping && died_in(a, b, pid, s) && !wl_has(
                wl,
                s,
                pa.id,
            ) {
                1int
            } else {
                0int
            })
        &&& (pb.status != pa.status ==> doomed(a, pid, pa.id))
        &&& (pb.status is Running ==> forall|t: u64|
            pa.links@.contains(t) && !pb.links@.contains(t) ==> died_in(a, b, pid, t))
    }
}

/// The per-process loop invariant of the failure-propagation loop.
spec fn term_inv_at(
    a: Node,
    b: Node,
    pid: u64,
    fault: Fault,
    wl: Seq<(u64, u64)>,
    i: int,
) -> bool {
    &&& term_inv_core_at(a, b, pid, fault, wl, i)
    &&& term_inv_extra_at(a, b, pid, fault, wl, i)
}

impl Node {
    /// Terminates `pid` abnormally with cause `fault` and propagates the
    /// failure over its links: every linked running peer either receives one
    /// exit notification (trapping mode) or is failed with the same cause
    /// (linked death), in which case its own links propagate further.
    pub fn terminate(&mut self, pid: u64, fault: Fault)
        requires
            old(self).wf(),
            old(self).is_running(pid),
        ensures
            final(self).wf(),
            terminated(*old(self), *final(self), pid, fault),
    {
        let ghost a = *old(self);
        proof {
            a.lemma_proc_idx(pid);
        }
        let idx = match self.find_proc(pid) {
            Some(x) => x,
            None => {
                proof {
                    assert(false);
                }
                0
            },
        };
        let mut p = self.processes.remove(idx);
        let peers = p.links;
        p.links = Vec::new();
        p.status = Status::Failed(fault);
        self.processes.insert(idx, p);
        proof {
            assert(self.processes@ =~= a.processes@.update(idx as int, self.processes@[idx as int]));
        }
        let mut wl: Vec<(u64, u64)> = Vec::new();
        let mut k: usize = 0;
        while k < peers.len()
            invariant
                0 <= k <= peers@.len(),
                wl@.len() == k,
                forall|m: int| 0 <= m < k ==> wl@[m] == (pid, peers@[m]),
            decreases peers@.len() - k,
        {
            wl.push((pid, peers[k]));
            k += 1;
        }
        proof {
            lemma_term_setup(a, *self, pid, fault, wl@, peers@, idx as int);
        }
        while wl.len() > 0
            invariant
                unchanged_meta(a, *self),
                self.delayed@ == a.delayed@,
                self.processes@.len() == a.processes@.len(),
                a.wf(),
                a.has_proc(pid),
                0 <= a.proc_idx(pid) < a.processes@.len(),
                a.processes@[a.proc_idx(pid)].id == pid,
                self.wf_ids(),
                self.wf_tags(),
                self.wf_quotas(),
                self.wf_refs(),
                self.wf_delayed(),
                self.wf_registry(),
                term_wl_ok(a, *self, pid, fault, wl@),
                term_sym(*self, wl@),
                forall|i: int|
                    0 <= i < a.processes@.len() ==> #[trigger] term_inv_at(
                        a,
                        *self,
                        pid,
                        fault,
                        wl@,
                        i,
                    ),
            decreases running_count(self.processes@), wl@.len(),
        {
            let ghost prev = *self;
            let ghost wl_pre = wl@;
            let pair = match wl.pop() {
                Some(x) => x,
                None => {
                    proof {
                        assert(false);
                    }
                    (0u64, 0u64)
                },
            };
            let d = pair.0;
            let u = pair.1;
            proof {
                assert(pair == wl_pre.last());
                assert(wl@ =~= wl_pre.drop_last());
                assert(wl_entry_ok(a, prev, pid, fault, pair)) by {
                    assert(wl_pre[wl_pre.len() - 1] == pair);
                }
            }
            let uidx = match self.find_proc(u) {
                Some(x) => x,
                None => {
                    proof {
                        assert(false);
                    }
                    0
                },
            };
            let ghost ui = uidx as int;
            let mut up = self.processes.remove(uidx);
            let ghost up0 = up;
            match find_in(&up.links, d) {
                Some(li) => {
                    up.links.remove(li);
                    proof {
                        assert(up0.links@.contains(d)) by {
                            assert(up0.links@[li as int] == d);
                        }
                        assert(exists|lj: int|
                            0 <= lj < up0.links@.len() && up0.links@[lj] == d && up.links@
                                == up0.links@.remove(lj)) by {
                            assert((li as int) < up0.links@.len() && up0.links@[li as int] == d
                                && up.links@ == up0.links@.remove(li as int));
                        }
                    }
                },
                None => {},
            }
            let ghost up1 = up;
            let mut killed = false;
            let mut new_peers: Vec<u64> = Vec::new();
            let running = match up.status {
                Status::Running => true,
                _ => false,
            };
            if running {
                if up.trapping {
                    up.mailbox.push(Envelope::Exit { from: d, fault });
                } else {
                    up.status = Status::Failed(fault);
                    let ws = up.links;
                    up.links = Vec::new();
                    new_peers = ws;
                    killed = true;
                }
            }
            self.processes.insert(uidx, up);
            proof {
                assert(self.processes@ =~= prev.processes@.update(ui, self.processes@[ui]));
            }
            let ghost wl_mid = wl@;
            let mut k2: usize = 0;
            while k2 < new_peers.len()
                invariant
                    0 <= k2 <= new_peers@.len(),
                    wl@.len() == wl_mid.len() + k2,
                    forall|m: int| 0 <= m < wl_mid.len() ==> wl@[m] == wl_mid[m],
                    forall|m: int| 0 <= m < k2 ==> wl@[wl_mid.len() + m] == (u, new_peers@[m]),
                decreases new_peers@.len() - k2,
            {
                wl.push((u, new_peers[k2]));
                k2 += 1;
            }
            proof {
                assert(wl_mid =~= wl_pre.drop_last());
                assert(wl@.len() == wl_pre.len() - 1 + new_peers@.len());
                assert forall|m: int| 0 <= m < wl_pre.len() - 1 implies wl@[m] == wl_pre[m] by {
                    assert(wl@[m] == wl_mid[m]);
                    assert(wl_mid[m] == wl_pre.drop_last()[m]);
                }
                assert forall|m: int| 0 <= m < new_peers@.len() implies wl@[wl_pre.len() - 1 + m]
                    == (pair.1, new_peers@[m]) by {
                    assert(wl@[wl_mid.len() + m] == (u, new_peers@[m]));
                }
                lemma_term_step(
                    a,
                    prev,
                    *self,
                    pid,
                    fault,
                    wl_pre,
                    wl@,
                    pair,
                    ui,
                    up0,
                    up1,
                    new_peers@,
                    killed,
                );
            }
        }
        proof {
            lemma_term_finish(a, *self, pid, fault, wl@);
        }
    }
}

/// Establishes the propagation-loop invariant right after the dying process
/// has been marked failed and its peers queued.
#[verifier::rlimit(60)]
proof fn lemma_term_setup(
    a: Node,
    b: Node,
    pid: u64,
    fault: Fault,
    wl: Seq<(u64, u64)>,
    peers: Seq<u64>,
    idx: int,
)
    requires
        a.wf(),
        a.is_running(pid),
        0 <= idx < a.processes@.len(),
        a.processes@[idx].id == pid,
        peers == a.processes@[idx].links@,
        b.processes@ == a.processes@.update(idx, b.processes@[idx]),
        b.processes@.len() == a.processes@.len(),
        proc_core_eq(a.processes@[idx], b.processes@[idx]),
        b.processes@[idx].status == Status::Failed(fault),
        b.processes@[idx].links@.len() == 0,
        b.processes@[idx].mailbox@ == a.processes@[idx].mailbox@,
        unchanged_meta(a, b),
        b.delayed@ == a.delayed@,
        wl.len() == peers.len(),
        forall|m: int| 0 <= m < wl.len() ==> wl[m] == (pid, peers[m]),
    ensures
        b.wf_ids(),
        b.wf_tags(),
        b.wf_quotas(),
        b.wf_refs(),
        b.wf_delayed(),
        b.wf_registry(),
        term_wl_ok(a, b, pid, fault, wl),
        term_sym(b, wl),
        forall|i: int| 0 <= i < a.processes@.len() ==> #[trigger] term_inv_at(a, b, pid, fault, wl, i),
{
    let n = a.processes@.len();
    assert(forall|i: int| 0 <= i < n && i != idx ==> b.processes@[i] == a.processes@[i]);
    assert(forall|i: int| 0 <= i < n ==> (#[trigger] b.processes@[i]).id == a.processes@[i].id);
    assert(a.wf_links_at(idx));
    // every peer of the dying process is backlinked, running, and queued
    assert forall|m: int| 0 <= m < peers.len() implies a.has_proc(#[trigger] peers[m]) by {
        assert(a.link_ok(idx, m));
    }
    assert(b.wf_ids());
    assert forall|i: int| 0 <= i < n implies #[trigger] b.wf_tags_at(i) by {
        assert(a.wf_tags_at(i));
    }
    assert forall|i: int| 0 <= i < n implies #[trigger] b.wf_quotas_at(i) by {
        assert(a.wf_quotas_at(i));
    }
    assert(b.wf_refs());
    assert(b.wf_delayed());
    assert(b.wf_registry());
    // if some process links to pid, it is one of the peers, hence queued
    assert forall|x: u64| peers.contains(x) implies wl_has(wl, pid, x) by {
        let m = choose|m: int| 0 <= m < peers.len() && peers[m] == x;
        assert(wl[m] == (pid, x));
    }
    assert forall|i: int|
        0 <= i < n && i != idx && a.processes@[i].links@.contains(pid) implies wl_has(
        wl,
        pid,
        a.processes@[i].id,
    ) by {
        let k = choose|k: int|
            0 <= k < a.processes@[i].links@.len() && a.processes@[i].links@[k] == pid;
        assert(a.wf_links_at(i));
        assert(a.link_ok(i, k));
        let j = choose|j: int|
            0 <= j < n && (#[trigger] a.processes@[j]).id == pid && a.processes@[j].links@.contains(
                a.processes@[i].id,
            );
        assert(j == idx);
        assert(peers.contains(a.processes@[i].id));
    }
    // worklist entries are well formed
    assert forall|k: int| 0 <= k < wl.len() implies wl_entry_ok(a, b, pid, fault, #[trigger] wl[k]) by {
        assert(a.link_ok(idx, k));
        assert(wl[k] == (pid, peers[k]));
        assert(b.processes@[idx].id == pid);
        let j = choose|j: int|
            0 <= j < n && (#[trigger] a.processes@[j]).id == peers[k]
                && a.processes@[j].links@.contains(pid);
        assert(a.wf_links_at(j));
        assert(a.processes@[j].status is Running);
        assert(b.processes@[j].id == peers[k]);
        // the peer still holds the link back to the dying process
        assert(j != idx) by {
            assert(a.link_ok(idx, k));
        }
        assert(b.processes@[j].links@.contains(pid));
        assert(died_in(a, b, pid, pid));
    }
    assert forall|k1: int, k2: int| 0 <= k1 < k2 < wl.len() implies wl[k1] != wl[k2] by {
        assert(a.link_ok(idx, k2));
        assert(peers[k1] != peers[k2]);
    }
    // symmetry modulo the worklist
    assert forall|i: int, k: int|
        0 <= i < n && 0 <= k < b.processes@[i].links@.len() implies #[trigger] term_sym_at(
        b,
        wl,
        i,
        k,
    ) by {
        assert(i != idx);
        let t = b.processes@[i].links@[k];
        assert(a.wf_links_at(i));
        assert(a.link_ok(i, k));
        let j = choose|j: int|
            0 <= j < n && (#[trigger] a.processes@[j]).id == t && a.processes@[j].links@.contains(
                a.processes@[i].id,
            );
        if j == idx {
            assert(t == pid);
            assert(peers.contains(a.processes@[i].id));
            assert(wl_has(wl, t, b.processes@[i].id));
            assert(b.processes@[j].id == t);
        } else {
            assert(b.processes@[j].links@.contains(b.processes@[i].id));
        }
    }
    // the per-process invariant
    assert forall|i: int| 0 <= i < n implies #[trigger] term_inv_at(a, b, pid, fault, wl, i) by {
        if i == idx {
        } else {
            let pa = a.processes@[i];
            assert(pa.id != pid) by {
                if pa.id == pid {
                    assert(a.processes@[idx].id == a.processes@[i].id);
                }
            }
            assert(pa.mailbox@.is_prefix_of(pa.mailbox@)) by {
                assert(pa.mailbox@.subrange(0, pa.mailbox@.len() as int) =~= pa.mailbox@);
            }
            assert(a.wf_links_at(i));
            assert(forall|k: int| 0 <= k < pa.links@.len() ==> #[trigger] a.link_ok(i, k));
            assert forall|k1: int, k2: int|
                0 <= k1 < k2 < pa.links@.len() implies pa.links@[k1] != pa.links@[k2] by {
                assert(a.link_ok(i, k1));
            }
            assert forall|k: int| 0 <= k < pa.links@.len() implies pa.links@[k] != pa.id by {
                assert(a.link_ok(i, k));
            }
            if pa.links@.contains(pid) {
                assert(wl_has(wl, pid, pa.id));
            }
            // no exit notification has been delivered yet: every guard of
            // the per-source count formula is still off
            assert forall|s: u64|
                exit_count(b.processes@[i].mailbox@, s) == exit_count(pa.mailbox@, s) + (if pa
                    .links@.contains(s) && pa.status is Running && pa.trapping && died_in(
                    a,
                    b,
                    pid,
                    s,
                ) && !wl_has(wl, s, pa.id) {
                    1int
                } else {
                    0int
                }) by {
                if pa.links@.contains(s) && pa.status is Running && pa.trapping && died_in(
                    a,
                    b,
                    pid,
                    s,
                ) && !wl_has(wl, s, pa.id) {
                    if s == pid {
                        assert(wl_has(wl, pid, pa.id));
                    } else {
                        let j = choose|j: int|
                            0 <= j < a.processes@.len() && (#[trigger] a.processes@[j]).id == s
                                && a.processes@[j].status is Running && !(
                            b.processes@[j].status is Running);
                        assert(b.processes@[j] == a.processes@[j]);
                    }
                    assert(false);
                }
            }
        }
    }
}

/// Collapses the loop invariant at an empty worklist into the public
/// termination relation and the node invariant.
proof fn lemma_term_finish(a: Node, b: Node, pid: u64, fault: Fault, wl: Seq<(u64, u64)>)
    requires
        a.wf(),
        b.wf_ids(),
        b.wf_tags(),
        b.wf_quotas(),
        b.wf_refs(),
        b.wf_delayed(),
        b.wf_registry(),
        unchanged_meta(a, b),
        b.delayed@ == a.delayed@,
        b.processes@.len() == a.processes@.len(),
        wl.len() == 0,
        term_sym(b, wl),
        forall|i: int| 0 <= i < a.processes@.len() ==> #[trigger] term_inv_at(a, b, pid, fault, wl, i),
    ensures
        b.wf(),
        terminated(a, b, pid, fault),
{
    let n = a.processes@.len();
    assert forall|i: int| 0 <= i < n implies #[trigger] terminated_at(a, b, pid, fault, i) by {
        assert(term_inv_at(a, b, pid, fault, wl, i));
        assert(!wl_has(wl, pid, a.processes@[i].id));
    }
    assert forall|i: int| 0 <= i < n implies #[trigger] b.wf_links_at(i) by {
        assert(term_inv_at(a, b, pid, fault, wl, i));
        let pb = b.processes@[i];
        assert forall|k: int| 0 <= k < pb.links@.len() implies #[trigger] b.link_ok(i, k) by {
            assert(term_sym_at(b, wl, i, k));
            let t = pb.links@[k];
            let j = choose|j: int|
                0 <= j < n && (#[trigger] b.processes@[j]).id == t && (
                b.processes@[j].links@.contains(pb.id) || wl_has(wl, t, pb.id));
            assert(b.processes@[j].links@.contains(pb.id));
            if a.processes@[i].id == pid {
                assert(pb.links@.len() == 0);
            }
        }
        if a.processes@[i].id == pid {
        } else {
            assert(!(pb.status is Running) ==> pb.links@.len() == 0);
        }
    }
}

/// Everything the step lemmas of the failure-propagation loop assume: the
/// loop invariant before the step, the popped pair, and how the node and
/// the worklist were updated.
spec fn term_step_pre(
    a: Node,
    prev: Node,
    cur: Node,
    pid: u64,
    fault: Fault,
    wl_pre: Seq<(u64, u64)>,
    wl_new: Seq<(u64, u64)>,
    pair: (u64, u64),
    ui: int,
    up0: ProcessState,
    up1: ProcessState,
    new_peers: Seq<u64>,
    killed: bool,
) -> bool {
    &&& a.wf()
    &&& a.has_proc(pid)
    &&& a.processes@[a.proc_idx(pid)].id == pid
    &&& prev.wf_ids()
    &&& unchanged_meta(a, prev)
    &&& prev.delayed@ == a.delayed@
    &&& prev.processes@.len() == a.processes@.len()
    &&& term_wl_ok(a, prev, pid, fault, wl_pre)
    &&& term_sym(prev, wl_pre)
    &&& forall|i: int|
        0 <= i < a.processes@.len() ==> #[trigger] term_inv_at(a, prev, pid, fault, wl_pre, i)
    &&& wl_pre.len() > 0
    &&& pair == wl_pre.last()
    &&& 0 <= ui < prev.processes@.len()
    &&& up0 == prev.processes@[ui]
    &&& up0.id == pair.1
    &&& proc_core_eq(up0, up1)
    &&& up1.status == up0.status
    &&& up1.mailbox@ == up0.mailbox@
    &&& (up0.links@.contains(pair.0) ==> exists|li: int|
        0 <= li < up0.links@.len() && up0.links@[li] == pair.0 && up1.links@
            == up0.links@.remove(li))
    &&& (!up0.links@.contains(pair.0) ==> up1.links@ == up0.links@)
    &&& cur.processes@ == prev.processes@.update(ui, cur.processes@[ui])
    &&& cur.processes@.len() == prev.processes@.len()
    &&& unchanged_meta(prev, cur)
    &&& cur.delayed@ == prev.delayed@
    &&& ({
        let up2 = cur.processes@[ui];
        if up0.status is Running {
            if up0.trapping {
                &&& !killed
                &&& new_peers.len() == 0
                &&& proc_core_eq(up1, up2)
                &&& up2.status == up1.status
                &&& up2.links@ == up1.links@
                &&& up2.mailbox@ == up1.mailbox@.push(Envelope::Exit { from: pair.0, fault })
            } else {
                &&& killed
                &&& new_peers == up1.links@
                &&& proc_core_eq(up1, up2)
                &&& up2.status == Status::Failed(fault)
                &&& up2.links@.len() == 0
                &&& up2.mailbox@ == up1.mailbox@
            }
        } else {
            &&& !killed
            &&& new_peers.len() == 0
            &&& cur.processes@[ui] == up1
        }
    })
    &&& wl_new.len() == wl_pre.len() - 1 + new_peers.len()
    &&& forall|m: int| 0 <= m < wl_pre.len() - 1 ==> wl_new[m] == wl_pre[m]
    &&& forall|m: int|
        0 <= m < new_peers.len() ==> wl_new[wl_pre.len() - 1 + m] == (pair.1, new_peers[m])
}

/// One step of the failure-propagation loop: the popped pair `(d, u)` has
/// been applied to the node, and the freshly taken peers of a cascade death
/// have been queued.  Re-establishes the loop invariant.
#[verifier::rlimit(100)]
proof fn lemma_term_step(
    a: Node,
    prev: Node,
    cur: Node,
    pid: u64,
    fault: Fault,
    wl_pre: Seq<(u64, u64)>,
    wl_new: Seq<(u64, u64)>,
    pair: (u64, u64),
    ui: int,
    up0: ProcessState,
    up1: ProcessState,
    new_peers: Seq<u64>,
    killed: bool,
)
    requires
        a.wf(),
        a.has_proc(pid),
        a.processes@[a.proc_idx(pid)].id == pid,
        prev.wf_ids(),
        prev.wf_tags(),
        prev.wf_quotas(),
        prev.wf_refs(),
        prev.wf_delayed(),
        prev.wf_registry(),
        unchanged_meta(a, prev),
        prev.delayed@ == a.delayed@,
        prev.processes@.len() == a.processes@.len(),
        term_wl_ok(a, prev, pid, fault, wl_pre),
        term_sym(prev, wl_pre),
        forall|i: int|
            0 <= i < a.processes@.len() ==> #[trigger] term_inv_at(a, prev, pid, fault, wl_pre, i),
        wl_pre.len() > 0,
        pair == wl_pre.last(),
        0 <= ui < prev.processes@.len(),
        up0 == prev.processes@[ui],
        up0.id == pair.1,
        // the link back to the dead sender has been removed
        proc_core_eq(up0, up1),
        up1.status == up0.status,
        up1.mailbox@ == up0.mailbox@,
        up0.links@.contains(pair.0) ==> exists|li: int|
            0 <= li < up0.links@.len() && up0.links@[li] == pair.0 && up1.links@
                == up0.links@.remove(li),
        !up0.links@.contains(pair.0) ==> up1.links@ == up0.links@,
        // how the process was updated
        cur.processes@ == prev.processes@.update(ui, cur.processes@[ui]),
        cur.processes@.len() == prev.processes@.len(),
        unchanged_meta(prev, cur),
        cur.delayed@ == prev.delayed@,
        ({
            let up2 = cur.processes@[ui];
            if up0.status is Running {
                if up0.trapping {
                    &&& !killed
                    &&& new_peers.len() == 0
                    &&& proc_core_eq(up1, up2)
                    &&& up2.status == up1.status
                    &&& up2.links@ == up1.links@
                    &&& up2.mailbox@ == up1.mailbox@.push(
                        Envelope::Exit { from: pair.0, fault },
                    )
                } else {
                    &&& killed
                    &&& new_peers == up1.links@
                    &&& proc_core_eq(up1, up2)
                    &&& up2.status == Status::Failed(fault)
                    &&& up2.links@.len() == 0
                    &&& up2.mailbox@ == up1.mailbox@
                }
            } else {
                &&& !killed
                &&& new_peers.len() == 0
                &&& cur.processes@[ui] == up1
            }
        }),
        // the new worklist
        wl_new.len() == wl_pre.len() - 1 + new_peers.len(),
        forall|m: int| 0 <= m < wl_pre.len() - 1 ==> wl_new[m] == wl_pre[m],
        forall|m: int|
            0 <= m < new_peers.len() ==> wl_new[wl_pre.len() - 1 + m] == (pair.1, new_peers[m]),
    ensures
        cur.wf_ids(),
        cur.wf_tags(),
        cur.wf_quotas(),
        cur.wf_refs(),
        cur.wf_delayed(),
        cur.wf_registry(),
        unchanged_meta(a, cur),
        cur.delayed@ == a.delayed@,
        cur.processes@.len() == a.processes@.len(),
        term_wl_ok(a, cur, pid, fault, wl_new),
        term_sym(cur, wl_new),
        forall|i: int|
            0 <= i < a.processes@.len() ==> #[trigger] term_inv_at(a, cur, pid, fault, wl_new, i),
        killed ==> running_count(cur.processes@) + 1 == running_count(prev.processes@),
        !killed ==> running_count(cur.processes@) == running_count(prev.processes@) && wl_new.len()
            < wl_pre.len(),
{
    let n = a.processes@.len();
    let d = pair.0;
    let u = pair.1;
    let dl = wl_pre.drop_last();
    let up2 = cur.processes@[ui];
    let pa_u = a.processes@[ui];
    assert(forall|i: int| 0 <= i < n && i != ui ==> cur.processes@[i] == prev.processes@[i]);
    assert(forall|i: int| 0 <= i < n ==> (#[trigger] cur.processes@[i]).id == prev.processes@[i].id);
    assert(forall|k: int| 0 <= k < wl_pre.len() ==> wl_entry_ok(a, prev, pid, fault, #[trigger] wl_pre[k]));
    assert(wl_entry_ok(a, prev, pid, fault, pair)) by {
        assert(wl_pre[wl_pre.len() - 1] == pair);
    }
    assert(wl_pre.contains(pair)) by {
        assert(wl_pre[wl_pre.len() - 1] == pair);
    }
    assert(term_inv_at(a, prev, pid, fault, wl_pre, ui));

    // --- basic facts about the pair -------------------------------------
    assert(d != u);
    // the sender of the exit signal is dead with no links left
    let jd = choose|j: int|
        0 <= j < n && (#[trigger] prev.processes@[j]).id == d && prev.processes@[j].status
            == Status::Failed(fault) && prev.processes@[j].links@.len() == 0;
    assert(prev.processes@[jd].id == d);
    // the process under the pid never runs again, so a running u is not pid
    let jp = a.proc_idx(pid);
    assert(term_inv_at(a, prev, pid, fault, wl_pre, jp));
    assert(prev.processes@[jp].status == Status::Failed(fault));
    if up0.status is Running {
        assert(u != pid) by {
            if u == pid {
                assert(prev.processes@[ui].id == pid);
                assert(ui == jp);
            }
        }
    }
    // worklist membership transfers between wl_pre, dl and wl_new
    assert(forall|x: (u64, u64)| dl.contains(x) ==> wl_pre.contains(x));
    assert forall|x: (u64, u64)| wl_pre.contains(x) && x != pair implies dl.contains(x) by {
        let m = choose|m: int| 0 <= m < wl_pre.len() && wl_pre[m] == x;
        assert(m < wl_pre.len() - 1);
        assert(dl[m] == x);
    }
    assert(!dl.contains(pair)) by {
        if dl.contains(pair) {
            let m = choose|m: int| 0 <= m < dl.len() && dl[m] == pair;
            assert(wl_pre[m] == pair);
            assert(wl_pre[m] != wl_pre[wl_pre.len() - 1]);
        }
    }
    assert forall|x: (u64, u64)| #[trigger] wl_new.contains(x) implies dl.contains(x) || (killed
        && x.0 == u && new_peers.contains(x.1)) by {
        let m = choose|m: int| 0 <= m < wl_new.len() && wl_new[m] == x;
        if m < wl_pre.len() - 1 {
            assert(dl[m] == x);
        } else {
            assert(x == (u, new_peers[m - (wl_pre.len() - 1)]));
        }
    }
    assert forall|x: (u64, u64)| dl.contains(x) implies #[trigger] wl_new.contains(x) by {
        let m = choose|m: int| 0 <= m < dl.len() && dl[m] == x;
        assert(wl_new[m] == x);
    }
    assert forall|m: int| 0 <= m < new_peers.len() implies #[trigger] wl_new.contains(
        (u, new_peers[m]),
    ) by {
        assert(wl_new[wl_pre.len() - 1 + m] == (u, new_peers[m]));
    }
    // pairs that track notifications from pid are unchanged except (pid, u)
    assert forall|x: u64| x != u || d != pid implies (wl_has(wl_new, pid, x) == wl_has(
        wl_pre,
        pid,
        x,
    )) by {
        if wl_has(wl_new, pid, x) {
            if killed {
                assert(!(up0.status is Running) || !up0.trapping);
            }
            if !dl.contains((pid, x)) {
                assert(killed && u == pid);
                assert(false);
            }
        }
        if wl_has(wl_pre, pid, x) {
            if (pid, x) == pair {
                assert(x == u && d == pid);
            } else {
                assert(dl.contains((pid, x)));
            }
        }
    }
    assert(!wl_has(wl_new, pid, u) || d != pid) by {
        if d == pid && wl_has(wl_new, pid, u) {
            assert(dl.contains((pid, u)) || (killed && new_peers.contains(u)));
            if killed {
                assert forall|m: int| 0 <= m < new_peers.len() implies new_peers[m] != u by {
                    assert(up0.links@.contains(new_peers[m]) || up1.links@.contains(new_peers[m]));
                }
            }
        }
    }

    // --- links of u after the removal -----------------------------------
    assert(forall|k: int|
        0 <= k < up1.links@.len() ==> up0.links@.contains(#[trigger] up1.links@[k]));
    if up0.links@.contains(d) {
        let li = choose|li: int|
            0 <= li < up0.links@.len() && up0.links@[li] == d && up1.links@ == up0.links@.remove(
                li,
            );
        if pa_u.id != pid {
            assert forall|k1: int, k2: int|
                0 <= k1 < k2 < up1.links@.len() implies up1.links@[k1] != up1.links@[k2] by {
                let m1 = if k1 < li {
                    k1
                } else {
                    k1 + 1
                };
                let m2 = if k2 < li {
                    k2
                } else {
                    k2 + 1
                };
                assert(up1.links@[k1] == up0.links@[m1]);
                assert(up1.links@[k2] == up0.links@[m2]);
            }
            assert(!up1.links@.contains(d)) by {
                if up1.links@.contains(d) {
                    let k = choose|k: int| 0 <= k < up1.links@.len() && up1.links@[k] == d;
                    let m = if k < li {
                        k
                    } else {
                        k + 1
                    };
                    assert(up0.links@[m] == d);
                }
            }
        }
    }
    assert(!up1.links@.contains(d) || pa_u.id == pid);
    if pa_u.id == pid {
        assert(up0.links@.len() == 0);
        assert(up1.links@ == up0.links@);
        assert(cur.processes@[ui] == up1 || up0.status is Running);
        assert(!(up0.status is Running));
        assert(up2 == up1);
    }

    // --- the pointwise invariant, structural half -----------------------
    assert forall|i: int| 0 <= i < n implies #[trigger] term_inv_core_at(
        a,
        cur,
        pid,
        fault,
        wl_new,
        i,
    ) by {
        assert(term_inv_at(a, prev, pid, fault, wl_pre, i));
        let pa = a.processes@[i];
        let pp = prev.processes@[i];
        let pc = cur.processes@[i];
        if i != ui {
            assert(pc == pp);
            if pa.id != pid {
                // the wl condition for this process is untouched
                assert(a.processes@[i].id == pp.id);
                if pa.links@.contains(pid) && pa.status is Running && pa.trapping {
                    assert(pp.id == pa.id);
                    if pa.id == u {
                        assert(prev.processes@[ui].id == u);
                        assert(i == ui);
                    }
                    assert(wl_has(wl_new, pid, pa.id) == wl_has(wl_pre, pid, pa.id));
                }
                if pc.links@.contains(pid) {
                    assert(wl_has(wl_pre, pid, pa.id));
                    if pa.id == u {
                        assert(i == ui);
                    }
                    assert(wl_has(wl_new, pid, pa.id));
                }
                if pa.links@.contains(pid) && pa.status is Running && !pa.trapping {
                    if !(pc.status == Status::Failed(fault)) {
                        assert(wl_has(wl_pre, pid, pa.id));
                        if pa.id == u {
                            assert(i == ui);
                        }
                        assert(wl_has(wl_new, pid, pa.id));
                    }
                }
            }
        } else {
            // the updated process
            assert(pa.id != pid || up2 == up1);
            if pa.id == pid {
                assert(term_inv_core_at(a, cur, pid, fault, wl_new, i));
            } else {
                assert(pa_u.id == pa.id);
                if up0.status is Running {
                    if up0.trapping {
                        // one exit notification was appended
                        lemma_exit_count_push(
                            up1.mailbox@,
                            Envelope::Exit { from: d, fault },
                            pid,
                        );
                        assert(pa.mailbox@.is_prefix_of(up2.mailbox@)) by {
                            assert(pa.mailbox@.is_prefix_of(up0.mailbox@));
                            assert(up2.mailbox@.subrange(0, pa.mailbox@.len() as int)
                                =~= up0.mailbox@.subrange(0, pa.mailbox@.len() as int));
                        }
                        assert forall|k: int|
                            pa.mailbox@.len() <= k < up2.mailbox@.len() implies is_exit(
                            #[trigger] up2.mailbox@[k],
                        ) by {
                            if k < up0.mailbox@.len() {
                                assert(up2.mailbox@[k] == up0.mailbox@[k]);
                            } else {
                                assert(up2.mailbox@[k] == Envelope::Exit { from: d, fault });
                            }
                        }
                        if d == pid {
                            // this is the exactly-once notification
                            assert(pa.links@.contains(pid)) by {
                                let je = choose|j: int|
                                    0 <= j < n && (#[trigger] a.processes@[j]).id == u
                                        && a.processes@[j].links@.contains(pid)
                                        && a.processes@[j].status is Running;
                                assert(a.processes@[je].id == a.processes@[ui].id);
                                assert(je == ui);
                            }
                            assert(pa.status is Running) by {
                                assert(up0.status is Running);
                            }
                            assert(pa.trapping == up0.trapping);
                            assert(wl_has(wl_pre, pid, u));
                            assert(!wl_has(wl_new, pid, u));
                            assert(exit_count(up2.mailbox@, pid) == exit_count(pa.mailbox@, pid)
                                + 1);
                        } else {
                            assert(exit_count(up2.mailbox@, pid) == exit_count(up0.mailbox@, pid));
                            if pa.links@.contains(pid) && pa.status is Running && pa.trapping {
                                assert(wl_has(wl_new, pid, pa.id) == wl_has(wl_pre, pid, pa.id));
                            }
                        }
                        if up2.links@.contains(pid) {
                            assert(up0.links@.contains(pid));
                            assert(wl_has(wl_pre, pid, pa.id));
                            assert((pid, pa.id) != pair || !up1.links@.contains(pid));
                            assert(wl_has(wl_new, pid, pa.id)) by {
                                if (pid, pa.id) == pair {
                                    assert(d == pid);
                                    assert(!up1.links@.contains(d));
                                }
                                assert(dl.contains((pid, pa.id)));
                            }
                        }
                        assert(term_inv_core_at(a, cur, pid, fault, wl_new, i));
                    } else {
                        // linked death: status changes, links are emptied
                        assert(pa.status is Running || !(pa.trapping)) by {
                            if pa.trapping {
                                assert(pp.status == pa.status);
                            }
                        }
                        assert(pa.status is Running) by {
                            if !(pa.status is Running) {
                                assert(pp.mailbox@ == pa.mailbox@ && pp.links@ == pa.links@);
                                assert(pp.status == pa.status);
                            }
                        }
                        assert(!pa.trapping);
                        assert(exit_count(up2.mailbox@, pid) == exit_count(up0.mailbox@, pid));
                        assert(term_inv_core_at(a, cur, pid, fault, wl_new, i));
                    }
                } else {
                    // already terminated: nothing happened
                    assert(up2 == up1);
                    assert(up0.links@.len() == 0) by {
                        assert(!(pp.status is Running));
                    }
                    assert(up1.links@ == up0.links@);
                    if pa.links@.contains(pid) && pa.status is Running && pa.trapping {
                        assert(pp.status == pa.status);
                        assert(false);
                    }
                    assert(term_inv_core_at(a, cur, pid, fault, wl_new, i));
                }
            }
        }
    }

    // --- the worklist is well formed ------------------------------------
    assert forall|k: int| 0 <= k < wl_new.len() implies wl_entry_core(
        a,
        cur,
        pid,
        fault,
        #[trigger] wl_new[k],
    ) by {
        if k < wl_pre.len() - 1 {
            let e = wl_new[k];
            assert(wl_entry_ok(a, prev, pid, fault, e));
            let j0 = choose|j: int|
                0 <= j < n && (#[trigger] prev.processes@[j]).id == e.0 && prev.processes@[j].status
                    == Status::Failed(fault) && prev.processes@[j].links@.len() == 0;
            assert(cur.processes@[j0].id == e.0);
            if j0 == ui {
                assert(!(up0.status is Running));
                assert(up2 == up1);
                assert(cur.processes@[j0].status == Status::Failed(fault));
                assert(cur.processes@[j0].links@.len() == 0);
            } else {
                assert(cur.processes@[j0] == prev.processes@[j0]);
            }
            let j1 = choose|j: int| 0 <= j < n && (#[trigger] prev.processes@[j]).id == e.1;
            assert(cur.processes@[j1].id == e.1);
        } else {
            // a freshly queued peer of the cascade death
            let m = k - (wl_pre.len() - 1);
            let e = (u, new_peers[m]);
            assert(wl_new[k] == e);
            assert(killed);
            assert(up2.status == Status::Failed(fault) && up2.links@.len() == 0);
            assert(cur.processes@[ui].id == u);
            assert(e.0 != e.1) by {
                assert(up1.links@.contains(new_peers[m]));
                assert(up0.links@.contains(new_peers[m]));
                assert(term_inv_at(a, prev, pid, fault, wl_pre, ui));
                if pa_u.id == pid {
                    assert(up0.links@.len() == 0);
                } else {
                    assert forall|kk: int|
                        0 <= kk < up0.links@.len() implies up0.links@[kk] != up0.id by {
                        assert(pa_u.id != pid);
                    }
                }
            }
            assert(exists|j: int|
                0 <= j < n && (#[trigger] cur.processes@[j]).id == e.1) by {
                assert(up0.links@.contains(new_peers[m]));
                assert(term_inv_at(a, prev, pid, fault, wl_pre, ui));
                assert(pa_u.links@.contains(new_peers[m]));
                let kk = choose|kk: int|
                    0 <= kk < pa_u.links@.len() && pa_u.links@[kk] == new_peers[m];
                assert(a.wf_links_at(ui));
                assert(a.link_ok(ui, kk));
                let j = choose|j: int|
                    0 <= j < n && (#[trigger] a.processes@[j]).id == new_peers[m]
                        && a.processes@[j].links@.contains(pa_u.id);
                assert(term_inv_at(a, prev, pid, fault, wl_pre, j));
                assert(prev.processes@[j].id == new_peers[m]);
                assert(cur.processes@[j].id == new_peers[m]);
            }
            assert(e.0 == u && u != pid);
        }
    }
    assert forall|k1: int, k2: int| 0 <= k1 < k2 < wl_new.len() implies wl_new[k1] != wl_new[k2] by {
        let lim = wl_pre.len() - 1;
        if k1 < lim && k2 < lim {
            assert(wl_new[k1] == wl_pre[k1] && wl_new[k2] == wl_pre[k2]);
        } else if k1 < lim {
            // an old entry has a dead first component; the new ones carry u,
            // which was running
            assert(wl_new[k2] == (u, new_peers[k2 - lim]));
            assert(killed);
            let e = wl_pre[k1];
            assert(wl_entry_ok(a, prev, pid, fault, e));
            if e.0 == u {
                let j0 = choose|j: int|
                    0 <= j < n && (#[trigger] prev.processes@[j]).id == u && prev.processes@[j].status
                        == Status::Failed(fault) && prev.processes@[j].links@.len() == 0;
                assert(j0 == ui);
                assert(!(up0.status is Running));
            }
            assert(wl_new[k1].0 != u);
        } else {
            assert(wl_new[k1] == (u, new_peers[k1 - lim]));
            assert(wl_new[k2] == (u, new_peers[k2 - lim]));
            assert(killed);
            assert(new_peers == up1.links@);
            assert(up1.links@[k1 - lim] != up1.links@[k2 - lim]) by {
                assert(term_inv_at(a, prev, pid, fault, wl_pre, ui));
                if pa_u.id == pid {
                    assert(up0.links@.len() == 0);
                    assert(up1.links@.len() == 0);
                }
            }
        }
    }

    // --- symmetry modulo the worklist -----------------------------------
    assert forall|i: int, k: int|
        0 <= i < n && 0 <= k < cur.processes@[i].links@.len() implies #[trigger] term_sym_at(
        cur,
        wl_new,
        i,
        k,
    ) by {
        let pc = cur.processes@[i];
        let t = pc.links@[k];
        if i == ui {
            // remaining links of u: t is not d, and the old symmetry holds
            assert(up2.links@ == up1.links@ || up2.links@.len() == 0);
            assert(up1.links@.contains(t));
            let ko = choose|ko: int| 0 <= ko < up0.links@.len() && up0.links@[ko] == t;
            assert(term_sym_at(prev, wl_pre, ui, ko));
            let j = choose|j: int|
                0 <= j < n && (#[trigger] prev.processes@[j]).id == t && (
                prev.processes@[j].links@.contains(up0.id) || wl_has(wl_pre, t, up0.id));
            assert(t != d || pa_u.id == pid);
            assert(t != u) by {
                assert(term_inv_at(a, prev, pid, fault, wl_pre, ui));
                if pa_u.id == pid {
                    assert(up0.links@.len() == 0);
                }
            }
            assert(j != ui);
            assert(cur.processes@[j] == prev.processes@[j]);
            if prev.processes@[j].links@.contains(up0.id) {
                assert(term_sym_at(cur, wl_new, i, k));
            } else {
                assert(wl_has(wl_pre, t, up0.id));
                assert((t, up0.id) != pair) by {
                    if (t, up0.id) == pair {
                        assert(t == d);
                        assert(pa_u.id == pid);
                        assert(up0.links@.len() == 0);
                    }
                }
                assert(dl.contains((t, up0.id)));
                assert(wl_has(wl_new, t, up0.id));
                assert(term_sym_at(cur, wl_new, i, k));
            }
        } else {
            assert(pc == prev.processes@[i]);
            assert(term_sym_at(prev, wl_pre, i, k));
            let j = choose|j: int|
                0 <= j < n && (#[trigger] prev.processes@[j]).id == t && (
                prev.processes@[j].links@.contains(pc.id) || wl_has(wl_pre, t, pc.id));
            if j != ui {
                assert(cur.processes@[j] == prev.processes@[j]);
                if prev.processes@[j].links@.contains(pc.id) {
                    assert(term_sym_at(cur, wl_new, i, k));
                } else {
                    assert(wl_has(wl_pre, t, pc.id));
                    assert((t, pc.id) != pair) by {
                        if (t, pc.id) == pair {
                            assert(t == d && pc.id == u);
                            assert(prev.processes@[ui].id == u);
                            assert(i == ui);
                        }
                    }
                    assert(dl.contains((t, pc.id)));
                    assert(term_sym_at(cur, wl_new, i, k));
                }
            } else {
                // the backlink went through u
                assert(t == u);
                if prev.processes@[ui].links@.contains(pc.id) {
                    assert(up0.links@.contains(pc.id));
                    if up0.status is Running && !up0.trapping {
                        // u died: its links were queued
                        assert(killed);
                        assert(pc.id != d) by {
                            if pc.id == d {
                                assert(prev.processes@[jd].id == d);
                                assert(j == ui || jd == i);
                                assert(prev.processes@[i].links@.len() == 0);
                            }
                        }
                        assert(up1.links@.contains(pc.id)) by {
                            if up0.links@.contains(d) {
                                let li = choose|li: int|
                                    0 <= li < up0.links@.len() && up0.links@[li] == d
                                        && up1.links@ == up0.links@.remove(li);
                                let km = choose|km: int|
                                    0 <= km < up0.links@.len() && up0.links@[km] == pc.id;
                                assert(km != li);
                                if km < li {
                                    assert(up1.links@[km] == pc.id);
                                } else {
                                    assert(up1.links@[km - 1] == pc.id);
                                }
                            }
                        }
                        assert(new_peers.contains(pc.id));
                        assert(wl_has(wl_new, u, pc.id));
                        assert(term_sym_at(cur, wl_new, i, k));
                    } else if up0.status is Running {
                        // u traps: its links kept everything but d
                        assert(pc.id != d) by {
                            if pc.id == d {
                                assert(prev.processes@[jd].id == d);
                                assert(jd == i);
                                assert(prev.processes@[i].links@.len() == 0);
                            }
                        }
                        assert(up2.links@ == up1.links@);
                        assert(up1.links@.contains(pc.id)) by {
                            if up0.links@.contains(d) {
                                let li = choose|li: int|
                                    0 <= li < up0.links@.len() && up0.links@[li] == d
                                        && up1.links@ == up0.links@.remove(li);
                                let km = choose|km: int|
                                    0 <= km < up0.links@.len() && up0.links@[km] == pc.id;
                                assert(km != li);
                                if km < li {
                                    assert(up1.links@[km] == pc.id);
                                } else {
                                    assert(up1.links@[km - 1] == pc.id);
                                }
                            }
                        }
                        assert(term_sym_at(cur, wl_new, i, k));
                    } else {
                        // u was already dead, so it had no links
                        assert(term_inv_at(a, prev, pid, fault, wl_pre, ui));
                        if pa_u.id == pid {
                            assert(up0.links@.len() == 0);
                        } else {
                            assert(up0.links@.len() == 0);
                        }
                        assert(false);
                    }
                } else {
                    assert(wl_has(wl_pre, t, pc.id));
                    assert((t, pc.id) != pair) by {
                        if (t, pc.id) == pair {
                            assert(t == d && d == u);
                        }
                    }
                    assert(dl.contains((t, pc.id)));
                    assert(term_sym_at(cur, wl_new, i, k));
                }
            }
        }
    }

    // --- the simple well-formedness pieces ------------------------------
    assert(cur.wf_ids()) by {
        assert(forall|i: int|
            0 <= i < n ==> (#[trigger] cur.processes@[i]).id == prev.processes@[i].id);
    }
    assert forall|i: int| 0 <= i < n implies #[trigger] cur.wf_tags_at(i) by {
        assert(term_inv_at(a, prev, pid, fault, wl_pre, i));
        assert(prev.wf_tags_at(i)) by {
            assert(forall|ii: int| 0 <= ii < n ==> #[trigger] prev.wf_tags_at(ii));
        }
        if i == ui && up0.status is Running && up0.trapping {
            assert forall|k: int|
                0 <= k < up2.mailbox@.len() implies env_tag_ok(
                #[trigger] up2.mailbox@[k],
                cur.next_tag,
            ) by {
                if k < up0.mailbox@.len() {
                    assert(up2.mailbox@[k] == up0.mailbox@[k]);
                } else {
                    assert(up2.mailbox@[k] == Envelope::Exit { from: d, fault });
                }
            }
        }
    }
    assert forall|i: int| 0 <= i < n implies #[trigger] cur.wf_quotas_at(i) by {
        assert(forall|ii: int| 0 <= ii < n ==> #[trigger] prev.wf_quotas_at(ii));
        assert(prev.wf_quotas_at(i));
    }
    assert(cur.wf_refs()) by {
        assert(forall|i: int|
            0 <= i < n ==> (#[trigger] cur.processes@[i]).env_id == prev.processes@[i].env_id);
    }
    assert(cur.wf_delayed());
    assert(cur.wf_registry());

    // --- the accounting halves, shown separately ------------------------
    assert(term_step_pre(
        a,
        prev,
        cur,
        pid,
        fault,
        wl_pre,
        wl_new,
        pair,
        ui,
        up0,
        up1,
        new_peers,
        killed,
    ));
    lemma_term_step_extra(a, prev, cur, pid, fault, wl_pre, wl_new, pair, ui, up0, up1, new_peers, killed);
    lemma_term_step_wl_extra(a, prev, cur, pid, fault, wl_pre, wl_new, pair, ui, up0, up1, new_peers, killed);
    assert forall|i: int| 0 <= i < n implies #[trigger] term_inv_at(a, cur, pid, fault, wl_new, i) by {
        assert(term_inv_core_at(a, cur, pid, fault, wl_new, i));
        assert(term_inv_extra_at(a, cur, pid, fault, wl_new, i));
    }
    assert forall|k: int| 0 <= k < wl_new.len() implies wl_entry_ok(
        a,
        cur,
        pid,
        fault,
        #[trigger] wl_new[k],
    ) by {
        assert(wl_entry_core(a, cur, pid, fault, wl_new[k]));
        assert(wl_entry_extra(a, cur, pid, wl_new[k]));
    }

    // --- the termination measure ----------------------------------------
    lemma_running_count_update(prev.processes@, ui, up2);
    if killed {
        assert(up0.status is Running && !(up2.status is Running));
    } else {
        assert((up0.status is Running) == (up2.status is Running));
    }
}

/// The facts a cascade kill rests on: the victim was a running,
/// non-trapping process linked in `a` to the dead sender of the popped
/// pair, so the cascade genuinely reached it over links.
proof fn lemma_term_step_kill_facts(
    a: Node,
    prev: Node,
    cur: Node,
    pid: u64,
    fault: Fault,
    wl_pre: Seq<(u64, u64)>,
    wl_new: Seq<(u64, u64)>,
    pair: (u64, u64),
    ui: int,
    up0: ProcessState,
    up1: ProcessState,
    new_peers: Seq<u64>,
    killed: bool,
)
    requires
        term_step_pre(a, prev, cur, pid, fault, wl_pre, wl_new, pair, ui, up0, up1, new_peers, killed),
        up0.status is Running,
    ensures
        a.processes@[ui].id == pair.1,
        pair.1 != pid,
        a.processes@[ui].status is Running,
        a.processes@[ui].trapping == up0.trapping,
        up0.links@.contains(pair.0),
        a.processes@[ui].links@.contains(pair.0),
        killed ==> doomed(a, pid, pair.1),
        !died_in(a, prev, pid, pair.1),
{
    let n = a.processes@.len();
    let d = pair.0;
    let u = pair.1;
    let pa_u = a.processes@[ui];
    assert(wl_entry_ok(a, prev, pid, fault, pair)) by {
        assert(wl_pre[wl_pre.len() - 1] == pair);
    }
    assert(term_inv_at(a, prev, pid, fault, wl_pre, ui));
    assert(pa_u.id == u);
    // a running u is not the process under termination
    let jp = a.proc_idx(pid);
    assert(term_inv_at(a, prev, pid, fault, wl_pre, jp));
    assert(prev.processes@[jp].status == Status::Failed(fault));
    assert(u != pid) by {
        if u == pid {
            assert(prev.processes@[ui].id == pid);
            assert(ui == jp);
        }
    }
    // it was running in `a` too: the loop only fails processes
    assert(pa_u.status is Running) by {
        if !(pa_u.status is Running) {
            assert(prev.processes@[ui].status == pa_u.status);
        }
    }
    // the pending pair still has its link back to the dead sender
    assert(up0.links@.contains(d)) by {
        let j = choose|j: int|
            0 <= j < prev.processes@.len() && (#[trigger] prev.processes@[j]).id == u && (
            prev.processes@[j].links@.contains(d) || !(prev.processes@[j].status is Running));
        assert(j == ui);
    }
    assert(pa_u.links@.contains(d)) by {
        let km = choose|km: int| 0 <= km < up0.links@.len() && up0.links@[km] == d;
        assert(pa_u.links@.contains(up0.links@[km]));
    }
    // u never died before this step
    assert(!died_in(a, prev, pid, u)) by {
        if died_in(a, prev, pid, u) {
            let j = choose|j: int|
                0 <= j < a.processes@.len() && (#[trigger] a.processes@[j]).id == u
                    && a.processes@[j].status is Running && !(prev.processes@[j].status is Running);
            assert(j == ui);
        }
    }
    if killed {
        // the kill follows an actual link path from the dying process
        assert(!pa_u.trapping);
        assert(a.has_proc(u)) by {
            assert(a.processes@[ui].id == u);
        }
        a.lemma_proc_idx(u);
        assert(a.proc(u) == a.processes@[ui]);
        if d == pid {
            assert(doomed_via(a, pid, u, 0));
            assert(doomed(a, pid, u));
        } else {
            assert(doomed(a, pid, d));
            let nd = choose|nn: nat| doomed_via(a, pid, d, nn);
            assert(doomed_via(a, pid, u, nd + 1)) by {
                assert(a.proc(u).links@.contains(d) && doomed_via(
                    a,
                    pid,
                    d,
                    (nd + 1 - 1) as nat,
                ));
            }
            assert(doomed(a, pid, u));
        }
    }
}

/// The accounting half of the loop invariant survives one step: exit
/// counts stay pinned per source, status changes stay tied to the cascade,
/// and removed links still point at the dead.
#[verifier::rlimit(100)]
proof fn lemma_term_step_extra(
    a: Node,
    prev: Node,
    cur: Node,
    pid: u64,
    fault: Fault,
    wl_pre: Seq<(u64, u64)>,
    wl_new: Seq<(u64, u64)>,
    pair: (u64, u64),
    ui: int,
    up0: ProcessState,
    up1: ProcessState,
    new_peers: Seq<u64>,
    killed: bool,
)
    requires
        term_step_pre(a, prev, cur, pid, fault, wl_pre, wl_new, pair, ui, up0, up1, new_peers, killed),
    ensures
        forall|i: int|
            0 <= i < a.processes@.len() ==> #[trigger] term_inv_extra_at(
                a,
                cur,
                pid,
                fault,
                wl_new,
                i,
            ),
{
    let n = a.processes@.len();
    let d = pair.0;
    let u = pair.1;
    let dl = wl_pre.drop_last();
    let up2 = cur.processes@[ui];
    let pa_u = a.processes@[ui];
    assert(forall|i: int| 0 <= i < n && i != ui ==> cur.processes@[i] == prev.processes@[i]);
    assert(forall|k: int|
        0 <= k < wl_pre.len() ==> wl_entry_ok(a, prev, pid, fault, #[trigger] wl_pre[k]));
    assert(wl_entry_ok(a, prev, pid, fault, pair)) by {
        assert(wl_pre[wl_pre.len() - 1] == pair);
    }
    assert(wl_pre.contains(pair)) by {
        assert(wl_pre[wl_pre.len() - 1] == pair);
    }
    assert(term_inv_at(a, prev, pid, fault, wl_pre, ui));
    assert(d != u);
    assert(pa_u.id == u);
    // worklist membership transfer (as in the structural step)
    assert(forall|x: (u64, u64)| dl.contains(x) ==> wl_pre.contains(x));
    assert forall|x: (u64, u64)| wl_pre.contains(x) && x != pair implies dl.contains(x) by {
        let m = choose|m: int| 0 <= m < wl_pre.len() && wl_pre[m] == x;
        assert(m < wl_pre.len() - 1);
        assert(dl[m] == x);
    }
    assert(!dl.contains(pair)) by {
        if dl.contains(pair) {
            let m = choose|m: int| 0 <= m < dl.len() && dl[m] == pair;
            assert(wl_pre[m] == pair);
            assert(wl_pre[m] != wl_pre[wl_pre.len() - 1]);
        }
    }
    assert forall|x: (u64, u64)| #[trigger] wl_new.contains(x) implies dl.contains(x) || (killed
        && x.0 == u && new_peers.contains(x.1)) by {
        let m = choose|m: int| 0 <= m < wl_new.len() && wl_new[m] == x;
        if m < wl_pre.len() - 1 {
            assert(dl[m] == x);
        } else {
            assert(x == (u, new_peers[m - (wl_pre.len() - 1)]));
        }
    }
    assert forall|x: (u64, u64)| dl.contains(x) implies #[trigger] wl_new.contains(x) by {
        let m = choose|m: int| 0 <= m < dl.len() && dl[m] == x;
        assert(wl_new[m] == x);
    }
    assert forall|m: int| 0 <= m < new_peers.len() implies #[trigger] wl_new.contains(
        (u, new_peers[m]),
    ) by {
        assert(wl_new[wl_pre.len() - 1 + m] == (u, new_peers[m]));
    }
    // death bookkeeping: deaths only accumulate, and the only possible new
    // death in this step is u, when it is killed
    assert forall|s: u64| #[trigger] died_in(a, prev, pid, s) implies died_in(a, cur, pid, s) by {
        if s != pid {
            let j = choose|j: int|
                0 <= j < a.processes@.len() && (#[trigger] a.processes@[j]).id == s
                    && a.processes@[j].status is Running && !(prev.processes@[j].status is Running);
            if j == ui {
                assert(!(up2.status is Running));
            } else {
                assert(cur.processes@[j] == prev.processes@[j]);
            }
            assert(0 <= j < a.processes@.len() && a.processes@[j].id == s
                && a.processes@[j].status is Running && !(cur.processes@[j].status is Running));
        }
    }
    assert forall|s: u64|
        #[trigger] died_in(a, cur, pid, s) && !died_in(a, prev, pid, s) implies killed && s == u by {
        assert(s != pid);
        let j = choose|j: int|
            0 <= j < a.processes@.len() && (#[trigger] a.processes@[j]).id == s
                && a.processes@[j].status is Running && !(cur.processes@[j].status is Running);
        assert(j == ui) by {
            if j != ui {
                assert(cur.processes@[j] == prev.processes@[j]);
            }
        }
        assert(up0.status is Running) by {
            if !(up0.status is Running) {
                assert(0 <= j < a.processes@.len() && a.processes@[j].id == s
                    && a.processes@[j].status is Running && !(
                prev.processes@[j].status is Running));
            }
        }
        assert(killed) by {
            if !killed {
                assert(up2.status == up0.status || up2.status == up1.status);
            }
        }
    }
    if up0.status is Running {
        lemma_term_step_kill_facts(
            a,
            prev,
            cur,
            pid,
            fault,
            wl_pre,
            wl_new,
            pair,
            ui,
            up0,
            up1,
            new_peers,
            killed,
        );
    }
    if killed {
        assert(died_in(a, cur, pid, u)) by {
            assert(a.processes@[ui].id == u && a.processes@[ui].status is Running && !(
            cur.processes@[ui].status is Running));
        }
    }
    // the trapping peers of a fresh victim are all queued: their links to
    // it are intact, so they land in its taken link list
    if killed {
        assert forall|i: int|
            0 <= i < n && i != ui && a.processes@[i].id != pid && a.processes@[i].links@.contains(u)
                && a.processes@[i].status is Running && a.processes@[i].trapping implies wl_has(
            wl_new,
            u,
            a.processes@[i].id,
        ) by {
            let pa = a.processes@[i];
            let pp = prev.processes@[i];
            assert(term_inv_at(a, prev, pid, fault, wl_pre, i));
            // u's links in `a` hold this peer, by symmetry in `a`
            let km = choose|km: int| 0 <= km < pa.links@.len() && pa.links@[km] == u;
            assert(a.wf_links_at(i));
            assert(a.link_ok(i, km));
            let j = choose|j: int|
                0 <= j < n && (#[trigger] a.processes@[j]).id == u && a.processes@[j].links@.contains(
                    pa.id,
                );
            assert(j == ui);
            // and it is still there now: links lose only the dead, and a
            // trapping peer never dies
            assert(pp.status == pa.status);
            assert(up0.links@.contains(pa.id)) by {
                if !up0.links@.contains(pa.id) {
                    assert(died_in(a, prev, pid, pa.id));
                    if pa.id == pid {
                    } else {
                        let jx = choose|jx: int|
                            0 <= jx < a.processes@.len() && (#[trigger] a.processes@[jx]).id == pa.id
                                && a.processes@[jx].status is Running && !(
                            prev.processes@[jx].status is Running);
                        assert(jx == i);
                    }
                }
            }
            assert(pa.id != d) by {
                if pa.id == d {
                    assert(died_in(a, prev, pid, d));
                    if d == pid {
                    } else {
                        let jx = choose|jx: int|
                            0 <= jx < a.processes@.len() && (#[trigger] a.processes@[jx]).id == d
                                && a.processes@[jx].status is Running && !(
                            prev.processes@[jx].status is Running);
                        assert(jx == i);
                    }
                }
            }
            assert(up1.links@.contains(pa.id)) by {
                if up0.links@.contains(d) {
                    let li = choose|li: int|
                        0 <= li < up0.links@.len() && up0.links@[li] == d && up1.links@
                            == up0.links@.remove(li);
                    let kk = choose|kk: int| 0 <= kk < up0.links@.len() && up0.links@[kk] == pa.id;
                    assert(kk != li);
                    if kk < li {
                        assert(up1.links@[kk] == pa.id);
                    } else {
                        assert(up1.links@[kk - 1] == pa.id);
                    }
                }
            }
            assert(new_peers.contains(pa.id));
        }
    }
    // the per-process accounting clauses
    assert forall|i: int| 0 <= i < n implies #[trigger] term_inv_extra_at(
        a,
        cur,
        pid,
        fault,
        wl_new,
        i,
    ) by {
        assert(term_inv_at(a, prev, pid, fault, wl_pre, i));
        let pa = a.processes@[i];
        let pp = prev.processes@[i];
        let pc = cur.processes@[i];
        if pa.id != pid {
            // status changes stay tied to the cascade
            if pc.status != pa.status {
                if pp.status != pa.status {
                    assert(doomed(a, pid, pa.id));
                } else {
                    assert(i == ui) by {
                        if i != ui {
                            assert(pc == pp);
                        }
                    }
                    assert(killed) by {
                        if !killed {
                            assert(up2.status == up0.status);
                        }
                    }
                    assert(doomed(a, pid, pa.id));
                }
            }
            // removed links point at the dead
            if pc.status is Running {
                assert forall|t: u64|
                    pa.links@.contains(t) && !pc.links@.contains(t) implies died_in(
                    a,
                    cur,
                    pid,
                    t,
                ) by {
                    if i != ui {
                        assert(pc == pp);
                        assert(pp.status is Running);
                        assert(died_in(a, prev, pid, t));
                    } else {
                        assert(up0.status is Running) by {
                            if !(up0.status is Running) {
                                assert(pc == up1);
                            }
                        }
                        assert(up0.trapping) by {
                            if !up0.trapping {
                                assert(killed);
                            }
                        }
                        assert(pc.links@ == up1.links@);
                        if up0.links@.contains(t) {
                            // it went now, so it is the dead sender
                            assert(up0.links@.contains(d));
                            let li = choose|li: int|
                                0 <= li < up0.links@.len() && up0.links@[li] == d && up1.links@
                                    == up0.links@.remove(li);
                            let kk = choose|kk: int|
                                0 <= kk < up0.links@.len() && up0.links@[kk] == t;
                            assert(t == d) by {
                                if t != d {
                                    assert(kk != li);
                                    if kk < li {
                                        assert(up1.links@[kk] == t);
                                    } else {
                                        assert(up1.links@[kk - 1] == t);
                                    }
                                }
                            }
                            assert(died_in(a, prev, pid, d));
                        } else {
                            assert(pp.status is Running);
                            assert(died_in(a, prev, pid, t));
                        }
                    }
                }
            }
            // the per-source exit counts
            assert forall|s: u64|
                exit_count(pc.mailbox@, s) == exit_count(pa.mailbox@, s) + (if pa.links@.contains(
                    s,
                ) && pa.status is Running && pa.trapping && died_in(a, cur, pid, s) && !wl_has(
                    wl_new,
                    s,
                    pa.id,
                ) {
                    1int
                } else {
                    0int
                }) by {
                lemma_term_count_at(
                    a,
                    prev,
                    cur,
                    pid,
                    fault,
                    wl_pre,
                    wl_new,
                    pair,
                    ui,
                    up0,
                    up1,
                    new_peers,
                    killed,
                    i,
                    s,
                );
            }
        }
    }
}

/// One cell of the per-source exit-count bookkeeping across one step.
#[verifier::rlimit(100)]
proof fn lemma_term_count_at(
    a: Node,
    prev: Node,
    cur: Node,
    pid: u64,
    fault: Fault,
    wl_pre: Seq<(u64, u64)>,
    wl_new: Seq<(u64, u64)>,
    pair: (u64, u64),
    ui: int,
    up0: ProcessState,
    up1: ProcessState,
    new_peers: Seq<u64>,
    killed: bool,
    i: int,
    s: u64,
)
    requires
        term_step_pre(a, prev, cur, pid, fault, wl_pre, wl_new, pair, ui, up0, up1, new_peers, killed),
        0 <= i < a.processes@.len(),
        a.processes@[i].id != pid,
        forall|x: u64| #[trigger] died_in(a, prev, pid, x) ==> died_in(a, cur, pid, x),
        forall|x: u64|
            #[trigger] died_in(a, cur, pid, x) && !died_in(a, prev, pid, x) ==> killed && x
                == pair.1,
        killed ==> died_in(a, cur, pid, pair.1),
        killed ==> forall|j: int|
            0 <= j < a.processes@.len() && j != ui && a.processes@[j].id != pid && (
            #[trigger] a.processes@[j]).links@.contains(pair.1)
                && a.processes@[j].status is Running && a.processes@[j].trapping ==> wl_has(
                wl_new,
                pair.1,
                a.processes@[j].id,
            ),
        forall|x: (u64, u64)| wl_pre.drop_last().contains(x) ==> #[trigger] wl_new.contains(x),
        forall|x: (u64, u64)|
            #[trigger] wl_new.contains(x) ==> wl_pre.drop_last().contains(x) || (killed && x.0
                == pair.1 && new_peers.contains(x.1)),
        forall|x: (u64, u64)|
            #[trigger] wl_pre.contains(x) && x != pair ==> wl_pre.drop_last().contains(x),
        forall|x: (u64, u64)| wl_pre.drop_last().contains(x) ==> #[trigger] wl_pre.contains(x),
        !wl_pre.drop_last().contains(pair),
    ensures
        ({
            let pa = a.processes@[i];
            let pc = cur.processes@[i];
            exit_count(pc.mailbox@, s) == exit_count(pa.mailbox@, s) + (if pa.links@.contains(s)
                && pa.status is Running && pa.trapping && died_in(a, cur, pid, s) && !wl_has(
                wl_new,
                s,
                pa.id,
            ) {
                1int
            } else {
                0int
            })
        }),
{
    let n = a.processes@.len();
    let d = pair.0;
    let u = pair.1;
    let pa = a.processes@[i];
    let pp = prev.processes@[i];
    let pc = cur.processes@[i];
    assert(term_inv_at(a, prev, pid, fault, wl_pre, i));
    assert(term_inv_at(a, prev, pid, fault, wl_pre, ui));
    assert(wl_entry_ok(a, prev, pid, fault, pair)) by {
        assert(wl_pre[wl_pre.len() - 1] == pair);
    }
    assert(wl_pre.contains(pair)) by {
        assert(wl_pre[wl_pre.len() - 1] == pair);
    }
    assert(d != u);
    assert(exit_count(pp.mailbox@, s) == exit_count(pa.mailbox@, s) + (if pa.links@.contains(s)
        && pa.status is Running && pa.trapping && died_in(a, prev, pid, s) && !wl_has(
        wl_pre,
        s,
        pa.id,
    ) {
        1int
    } else {
        0int
    }));
    if i != ui {
        assert(pc == pp);
        assert(pa.id != u) by {
            if pa.id == u {
                assert(prev.processes@[i].id == u);
                assert(prev.processes@[ui].id == u);
            }
        }
        if pa.links@.contains(s) && pa.status is Running && pa.trapping {
            if killed && s == u {
                // u died this step, but the fresh pair for this peer is
                // already queued, so the count owes nothing yet
                assert(wl_has(wl_new, u, pa.id));
                assert(!died_in(a, prev, pid, u)) by {
                    if died_in(a, prev, pid, u) {
                        let j = choose|j: int|
                            0 <= j < a.processes@.len() && (#[trigger] a.processes@[j]).id == u
                                && a.processes@[j].status is Running && !(
                            prev.processes@[j].status is Running);
                        assert(j == ui);
                        assert(!(up0.status is Running));
                    }
                }
            } else {
                assert(died_in(a, cur, pid, s) == died_in(a, prev, pid, s));
                assert(wl_has(wl_new, s, pa.id) == wl_has(wl_pre, s, pa.id)) by {
                    if wl_has(wl_pre, s, pa.id) {
                        assert((s, pa.id) != pair);
                        assert(wl_pre.drop_last().contains((s, pa.id)));
                    }
                    if wl_has(wl_new, s, pa.id) {
                        if !wl_pre.drop_last().contains((s, pa.id)) {
                            assert(killed && s == u);
                        }
                    }
                }
            }
        }
    } else {
        // the updated process
        let up2 = cur.processes@[ui];
        assert(pa.id == u);
        if up0.status is Running && up0.trapping {
            lemma_term_step_kill_facts(
                a,
                prev,
                cur,
                pid,
                fault,
                wl_pre,
                wl_new,
                pair,
                ui,
                up0,
                up1,
                new_peers,
                killed,
            );
            lemma_exit_count_push(up1.mailbox@, Envelope::Exit { from: d, fault }, s);
            assert(up1.mailbox@ == pp.mailbox@);
            if s == d {
                // the exactly-once delivery of this step
                assert(pa.links@.contains(d));
                assert(pa.status is Running);
                assert(pa.trapping == up0.trapping);
                assert(died_in(a, prev, pid, d));
                assert(died_in(a, cur, pid, d));
                assert(wl_has(wl_pre, d, u));
                assert(!wl_has(wl_new, d, u)) by {
                    if wl_has(wl_new, d, u) {
                        if wl_pre.drop_last().contains((d, u)) {
                        } else {
                            assert(killed && d == u);
                        }
                    }
                }
                assert(exit_count(up2.mailbox@, s) == exit_count(pp.mailbox@, s) + 1);
            } else {
                assert(exit_count(up2.mailbox@, s) == exit_count(pp.mailbox@, s));
                if pa.links@.contains(s) && pa.status is Running && pa.trapping {
                    assert(died_in(a, cur, pid, s) == died_in(a, prev, pid, s)) by {
                        if died_in(a, cur, pid, s) && !died_in(a, prev, pid, s) {
                            assert(killed);
                        }
                    }
                    assert(wl_has(wl_new, s, u) == wl_has(wl_pre, s, u)) by {
                        if wl_has(wl_pre, s, u) {
                            assert((s, u) != pair);
                            assert(wl_pre.drop_last().contains((s, u)));
                        }
                        if wl_has(wl_new, s, u) {
                            if !wl_pre.drop_last().contains((s, u)) {
                                assert(killed);
                            }
                        }
                    }
                }
            }
        } else if up0.status is Running {
            // linked death: this process is not trapping, so no count moves
            assert(up2.mailbox@ == pp.mailbox@);
            assert(pa.trapping == up0.trapping);
            assert(!pa.trapping);
        } else {
            // already terminated: untouched
            assert(up2 == up1);
            assert(up2.mailbox@ == pp.mailbox@);
            if pa.links@.contains(s) && pa.status is Running && pa.trapping {
                assert(pp.status == pa.status);
                assert(false);
            }
        }
    }
}

/// The accounting clauses of the worklist entries survive one step.
#[verifier::rlimit(100)]
proof fn lemma_term_step_wl_extra(
    a: Node,
    prev: Node,
    cur: Node,
    pid: u64,
    fault: Fault,
    wl_pre: Seq<(u64, u64)>,
    wl_new: Seq<(u64, u64)>,
    pair: (u64, u64),
    ui: int,
    up0: ProcessState,
    up1: ProcessState,
    new_peers: Seq<u64>,
    killed: bool,
)
    requires
        term_step_pre(a, prev, cur, pid, fault, wl_pre, wl_new, pair, ui, up0, up1, new_peers, killed),
    ensures
        forall|k: int|
            0 <= k < wl_new.len() ==> wl_entry_extra(a, cur, pid, #[trigger] wl_new[k]),
{
    let n = a.processes@.len();
    let d = pair.0;
    let u = pair.1;
    let up2 = cur.processes@[ui];
    let pa_u = a.processes@[ui];
    assert(forall|i: int| 0 <= i < n && i != ui ==> cur.processes@[i] == prev.processes@[i]);
    assert(forall|k: int|
        0 <= k < wl_pre.len() ==> wl_entry_ok(a, prev, pid, fault, #[trigger] wl_pre[k]));
    assert(wl_entry_ok(a, prev, pid, fault, pair)) by {
        assert(wl_pre[wl_pre.len() - 1] == pair);
    }
    assert(term_inv_at(a, prev, pid, fault, wl_pre, ui));
    assert(d != u);
    assert(pa_u.id == u);
    // deaths only accumulate across the step
    assert forall|x: u64| #[trigger] died_in(a, prev, pid, x) implies died_in(a, cur, pid, x) by {
        if x != pid {
            let j = choose|j: int|
                0 <= j < a.processes@.len() && (#[trigger] a.processes@[j]).id == x
                    && a.processes@[j].status is Running && !(prev.processes@[j].status is Running);
            if j == ui {
                assert(!(up2.status is Running));
            } else {
                assert(cur.processes@[j] == prev.processes@[j]);
            }
            assert(0 <= j < a.processes@.len() && a.processes@[j].id == x
                && a.processes@[j].status is Running && !(cur.processes@[j].status is Running));
        }
    }
    if killed {
        lemma_term_step_kill_facts(
            a,
            prev,
            cur,
            pid,
            fault,
            wl_pre,
            wl_new,
            pair,
            ui,
            up0,
            up1,
            new_peers,
            killed,
        );
        assert(died_in(a, cur, pid, u)) by {
            assert(a.processes@[ui].id == u && a.processes@[ui].status is Running && !(
            cur.processes@[ui].status is Running));
        }
    }
    assert forall|k: int| 0 <= k < wl_new.len() implies wl_entry_extra(
        a,
        cur,
        pid,
        #[trigger] wl_new[k],
    ) by {
        if k < wl_pre.len() - 1 {
            let e = wl_new[k];
            assert(e == wl_pre[k]);
            assert(wl_entry_ok(a, prev, pid, fault, e)) by {
                assert(wl_pre[k] == e);
            }
            assert(died_in(a, cur, pid, e.0));
            // the pending pair keeps its link back, or its target is dead
            let j = choose|j: int|
                0 <= j < prev.processes@.len() && (#[trigger] prev.processes@[j]).id == e.1 && (
                prev.processes@[j].links@.contains(e.0) || !(prev.processes@[j].status is Running));
            if j != ui {
                assert(cur.processes@[j] == prev.processes@[j]);
                assert(cur.processes@[j].id == e.1 && (cur.processes@[j].links@.contains(e.0)
                    || !(cur.processes@[j].status is Running)));
            } else {
                // e.1 == u: after this step u either died or kept every
                // pending link but the one just removed
                assert(e.1 == u);
                if !(up2.status is Running) {
                    assert(cur.processes@[ui].id == u);
                } else {
                    // trapping branch: only d was removed, and e.0 is a
                    // different pair's sender
                    assert(up0.status is Running && up0.trapping);
                    assert(up2.links@ == up1.links@);
                    assert(e != pair) by {
                        assert(wl_pre[k] != wl_pre[wl_pre.len() - 1]);
                    }
                    assert(e.0 != d) by {
                        if e.0 == d {
                            assert(e == pair);
                        }
                    }
                    assert(up0.links@.contains(e.0) || !(up0.status is Running));
                    assert(up1.links@.contains(e.0)) by {
                        if up0.links@.contains(d) {
                            let li = choose|li: int|
                                0 <= li < up0.links@.len() && up0.links@[li] == d && up1.links@
                                    == up0.links@.remove(li);
                            let kk = choose|kk: int|
                                0 <= kk < up0.links@.len() && up0.links@[kk] == e.0;
                            assert(kk != li);
                            if kk < li {
                                assert(up1.links@[kk] == e.0);
                            } else {
                                assert(up1.links@[kk - 1] == e.0);
                            }
                        }
                    }
                    assert(cur.processes@[ui].id == u && cur.processes@[ui].links@.contains(e.0));
                }
            }
        } else {
            // a freshly queued peer of the cascade death
            let m = k - (wl_pre.len() - 1);
            let e = (u, new_peers[m]);
            assert(wl_new[k] == e);
            assert(killed);
            assert(died_in(a, cur, pid, u));
            assert(doomed(a, pid, u));
            // the peer still links back to the victim, or is itself dead
            assert(up1.links@.contains(new_peers[m]));
            assert(up0.links@.contains(new_peers[m]));
            let kk = choose|kk: int| 0 <= kk < up0.links@.len() && up0.links@[kk] == new_peers[m];
            assert(term_sym_at(prev, wl_pre, ui, kk)) by {
                assert(prev.processes@[ui].links@[kk] == new_peers[m]);
            }
            let j = choose|j: int|
                0 <= j < prev.processes@.len() && (#[trigger] prev.processes@[j]).id
                    == new_peers[m] && (prev.processes@[j].links@.contains(u) || wl_has(
                    wl_pre,
                    new_peers[m],
                    u,
                ));
            assert(new_peers[m] != u) by {
                assert(term_inv_at(a, prev, pid, fault, wl_pre, ui));
                if pa_u.id == pid {
                    assert(up0.links@.len() == 0);
                } else {
                    assert(up0.links@[kk] != up0.id);
                }
            }
            assert(j != ui);
            assert(cur.processes@[j] == prev.processes@[j]);
            if prev.processes@[j].links@.contains(u) {
                assert(cur.processes@[j].id == e.1 && cur.processes@[j].links@.contains(e.0));
            } else {
                // the pending pair back to the peer means the peer is dead
                assert(wl_has(wl_pre, new_peers[m], u));
                let km = choose|km: int|
                    0 <= km < wl_pre.len() && wl_pre[km] == (new_peers[m], u);
                assert(wl_entry_ok(a, prev, pid, fault, (new_peers[m], u))) by {
                    assert(wl_pre[km] == (new_peers[m], u));
                }
                let j2 = choose|j2: int|
                    0 <= j2 < prev.processes@.len() && (#[trigger] prev.processes@[j2]).id
                        == new_peers[m] && prev.processes@[j2].status == Status::Failed(fault)
                        && prev.processes@[j2].links@.len() == 0;
                assert(j2 != ui);
                assert(cur.processes@[j2] == prev.processes@[j2]);
                assert(cur.processes@[j2].id == e.1 && !(cur.processes@[j2].status is Running));
            }
        }
    }
}

/// The host-function token that messaging operations are gated on.
pub open spec fn messaging_token() -> Seq<u8> {
    str_bytes("lunatic::message::"@)
}

/// Delivery of one envelope: the receiver's mailbox grows by `e` if the
/// receiver is running; a message to a terminated or unknown process is
/// silently dropped; nothing else changes.
pub open spec fn sent(a: Node, b: Node, receiver: u64, e: Envelope) -> bool {
    &&& unchanged_meta(a, b)
    &&& b.delayed@ == a.delayed@
    &&& b.processes@.len() == a.processes@.len()
    &&& forall|i: int|
        0 <= i < a.processes@.len() ==> {
            let pa = #[trigger] a.processes@[i];
            let pb = b.processes@[i];
            if pa.id == receiver && pa.status is Running {
                proc_eq_except_mailbox(pa, pb) && pb.mailbox@ == pa.mailbox@.push(e)
            } else {
                pb == pa
            }
        }
}

/// Everything except the process with the given identifier is unchanged.
pub open spec fn frame_except(a: Node, b: Node, pid: u64) -> bool {
    &&& unchanged_meta(a, b)
    &&& b.delayed@ == a.delayed@
    &&& b.processes@.len() == a.processes@.len()
    &&& forall|i: int|
        0 <= i < a.processes@.len() && (#[trigger] a.processes@[i]).id != pid ==> b.processes@[i]
            == a.processes@[i]
}

/// Re-establishes the node invariant after a single process was updated in
/// a way that keeps its identity, status and links.
proof fn lemma_wf_one(a: Node, b: Node, ui: int)
    requires
        a.wf(),
        0 <= ui < a.processes@.len(),
        b.processes@ == a.processes@.update(ui, b.processes@[ui]),
        b.processes@.len() == a.processes@.len(),
        b.envs@ == a.envs@,
        b.modules@ == a.modules@,
        b.registry@ == a.registry@,
        b.delayed@ == a.delayed@,
        b.next_pid == a.next_pid,
        b.next_env_id == a.next_env_id,
        b.next_module_id == a.next_module_id,
        b.next_delay_seq == a.next_delay_seq,
        b.next_tag >= a.next_tag,
        ({
            let pa = a.processes@[ui];
            let pb = b.processes@[ui];
            &&& pb.id == pa.id
            &&& pb.env_id == pa.env_id
            &&& pb.status == pa.status
            &&& pb.links@ == pa.links@
            &&& (pb.pending matches Some(pr) ==> pr.tag < b.next_tag)
            &&& forall|k: int| 0 <= k < pb.stale@.len() ==> (#[trigger] pb.stale@[k]) < b.next_tag
            &&& forall|k: int|
                0 <= k < pb.mailbox@.len() ==> env_tag_ok(#[trigger] pb.mailbox@[k], b.next_tag)
            &&& pb.memory_used <= pb.memory_limit
            &&& (pb.compute_budget > 0 ==> pb.fuel_used <= pb.compute_budget)
        }),
    ensures
        b.wf(),
{
    let n = a.processes@.len();
    assert(forall|i: int| 0 <= i < n && i != ui ==> b.processes@[i] == a.processes@[i]);
    assert(forall|i: int| 0 <= i < n ==> (#[trigger] b.processes@[i]).id == a.processes@[i].id);
    assert(b.wf_ids());
    assert forall|i: int| 0 <= i < n implies #[trigger] b.wf_links_at(i) by {
        assert(a.wf_links_at(i));
        let p = b.processes@[i];
        assert(p.status == a.processes@[i].status && p.links@ == a.processes@[i].links@);
        assert forall|k: int| 0 <= k < p.links@.len() implies #[trigger] b.link_ok(i, k) by {
            assert(a.link_ok(i, k));
            let j = choose|j: int|
                0 <= j < n && (#[trigger] a.processes@[j]).id == p.links@[k]
                    && a.processes@[j].links@.contains(a.processes@[i].id);
            assert(b.processes@[j].id == p.links@[k]);
            assert(b.processes@[j].links@ == a.processes@[j].links@);
        }
    }
    assert forall|i: int| 0 <= i < n implies #[trigger] b.wf_tags_at(i) by {
        assert(a.wf_tags_at(i));
        if i != ui {
            let p = b.processes@[i];
            assert forall|k: int|
                0 <= k < p.mailbox@.len() implies env_tag_ok(#[trigger] p.mailbox@[k], b.next_tag) by {
                assert(env_tag_ok(p.mailbox@[k], a.next_tag));
            }
        }
    }
    assert forall|i: int| 0 <= i < n implies #[trigger] b.wf_quotas_at(i) by {
        assert(a.wf_quotas_at(i));
    }
    assert(b.wf_refs());
    assert(b.wf_delayed());
    assert(b.wf_registry());
}

impl Node {
    /// Whether a process may use the messaging host functions: one of its
    /// environment's allowed namespaces is a prefix of the messaging token.
    pub open spec fn can_message(self, pid: u64) -> bool {
        ns_allowed(self.env_st(self.proc(pid).env_id).config.namespaces@, messaging_token())
    }

    fn check_messaging(&self, sidx: usize) -> (r: bool)
        requires
            self.wf(),
            sidx < self.processes@.len(),
        ensures
            r == self.can_message(self.processes@[sidx as int].id),
    {
        let pid = self.processes[sidx].id;
        let eid = self.processes[sidx].env_id;
        proof {
            assert(self.has_proc(pid)) by {
                assert(self.processes@[sidx as int].id == pid);
            }
            self.lemma_proc_idx(pid);
            assert(self.proc(pid) == self.processes@[sidx as int]);
            assert(self.has_env(eid));
            self.lemma_env_idx(eid);
        }
        let eidx = match self.find_env(eid) {
            Some(x) => x,
            None => {
                proof {
                    assert(false);
                }
                0
            },
        };
        proof {
            assert(self.envs@[eidx as int] == self.env_st(eid));
        }
        namespace_allowed(&self.envs[eidx].config.namespaces, "lunatic::message::")
    }

    /// Appends an envelope to the receiver's mailbox if the receiver is a
    /// running process; otherwise the envelope is dropped.
    fn deliver(&mut self, receiver: u64, e: Envelope)
        requires
            old(self).wf(),
            env_tag_ok(e, old(self).next_tag),
        ensures
            final(self).wf(),
            sent(*old(self), *final(self), receiver, e),
    {
        let ghost a = *old(self);
        let ridx = match self.find_proc(receiver) {
            Some(x) => x,
            None => {
                proof {
                    assert forall|i: int|
                        0 <= i < a.processes@.len() implies !((#[trigger] a.processes@[i]).id
                        == receiver && a.processes@[i].status is Running) by {
                        assert(a.processes@[i].id != receiver);
                    }
                }
                return ;
            },
        };
        let running = match self.processes[ridx].status {
            Status::Running => true,
            _ => false,
        };
        if !running {
            proof {
                assert forall|i: int|
                    0 <= i < a.processes@.len() implies !((#[trigger] a.processes@[i]).id
                    == receiver && a.processes@[i].status is Running) by {
                    if a.processes@[i].id == receiver {
                        assert(i == ridx as int);
                    }
                }
            }
            return ;
        }
        let mut p = self.processes.remove(ridx);
        p.mailbox.push(e);
        self.processes.insert(ridx, p);
        proof {
            assert(self.processes@ =~= a.processes@.update(
                ridx as int,
                self.processes@[ridx as int],
            ));
            assert(a.wf_tags_at(ridx as int));
            assert(a.wf_quotas_at(ridx as int));
            assert forall|k: int|
                0 <= k < self.processes@[ridx as int].mailbox@.len() implies env_tag_ok(
                #[trigger] self.processes@[ridx as int].mailbox@[k],
                self.next_tag,
            ) by {
                if k < a.processes@[ridx as int].mailbox@.len() {
                    assert(self.processes@[ridx as int].mailbox@[k]
                        == a.processes@[ridx as int].mailbox@[k]);
                }
            }
            lemma_wf_one(a, *self, ridx as int);
            assert forall|i: int| 0 <= i < a.processes@.len() implies {
                let pa = #[trigger] a.processes@[i];
                let pb = self.processes@[i];
                if pa.id == receiver && pa.status is Running {
                    proc_eq_except_mailbox(pa, pb) && pb.mailbox@ == pa.mailbox@.push(e)
                } else {
                    pb == pa
                }
            } by {
                if a.processes@[i].id == receiver {
                    assert(i == ridx as int);
                }
            }
        }
    }

    /// Sends a fire-and-forget message from `sender` to `receiver`.  The
    /// send never blocks and is never acknowledged; messages from one sender
    /// to one receiver are enqueued in send order.  A sender whose
    /// environment does not grant the messaging namespace traps instead.
    pub fn send(&mut self, sender: u64, receiver: u64, payload: Vec<u8>)
        requires
            old(self).wf(),
            old(self).is_running(sender),
        ensures
            final(self).wf(),
            old(self).can_message(sender) ==> sent(
                *old(self),
                *final(self),
                receiver,
                Envelope::Message { sender, payload },
            ),
            !old(self).can_message(sender) ==> terminated(
                *old(self),
                *final(self),
                sender,
                Fault::NotAllowed,
            ),
    {
        let ghost a = *old(self);
        proof {
            a.lemma_proc_idx(sender);
        }
        let sidx = match self.find_proc(sender) {
            Some(x) => x,
            None => {
                proof {
                    assert(false);
                }
                0
            },
        };
        if !self.check_messaging(sidx) {
            self.terminate(sender, Fault::NotAllowed);
            return ;
        }
        self.deliver(receiver, Envelope::Message { sender, payload });
    }

    /// Sends the reply to a received request back to the requester, carrying
    /// the request's correlation tag.  A replier without the messaging
    /// capability traps.
    pub fn reply(&mut self, responder: u64, to: u64, tag: u64, payload: Vec<u8>)
        requires
            old(self).wf(),
            old(self).is_running(responder),
            tag < old(self).next_tag,
        ensures
            final(self).wf(),
            old(self).can_message(responder) ==> sent(
                *old(self),
                *final(self),
                to,
                Envelope::Reply { tag, payload },
            ),
            !old(self).can_message(responder) ==> terminated(
                *old(self),
                *final(self),
                responder,
                Fault::NotAllowed,
            ),
    {
        let ghost a = *old(self);
        proof {
            a.lemma_proc_idx(responder);
        }
        let sidx = match self.find_proc(responder) {
            Some(x) => x,
            None => {
                proof {
                    assert(false);
                }
                0
            },
        };
        if !self.check_messaging(sidx) {
            self.terminate(responder, Fault::NotAllowed);
            return ;
        }
        self.deliver(to, Envelope::Reply { tag, payload });
    }

    /// Chooses whether the process handles exit notifications as ordinary
    /// mailbox items (`true`) or dies with a failing linked peer (`false`).
    pub fn set_trapping(&mut self, pid: u64, on: bool)
        requires
            old(self).wf(),
            old(self).is_running(pid),
        ensures
            final(self).wf(),
            frame_except(*old(self), *final(self), pid),
            forall|i: int|
                0 <= i < old(self).processes@.len() && (#[trigger] old(self).processes@[i]).id
                    == pid ==> {
                    let pa = old(self).processes@[i];
                    let pb = final(self).processes@[i];
                    &&& proc_core_eq_except_trapping(pa, pb)
                    &&& pb.trapping == on
                },
    {
        let ghost a = *old(self);
        proof {
            a.lemma_proc_idx(pid);
        }
        let idx = match self.find_proc(pid) {
            Some(x) => x,
            None => {
                proof {
                    assert(false);
                }
                0
            },
        };
        let mut p = self.processes.remove(idx);
        p.trapping = on;
        self.processes.insert(idx, p);
        proof {
            assert(self.processes@ =~= a.processes@.update(idx as int, self.processes@[idx as int]));
            assert(a.wf_tags_at(idx as int));
            assert(a.wf_quotas_at(idx as int));
            lemma_wf_one(a, *self, idx as int);
            assert forall|i: int|
                0 <= i < a.processes@.len() && (#[trigger] a.processes@[i]).id != pid implies self
                .processes@[i] == a.processes@[i] by {}
        }
    }

    /// Accounts an allocation of `bytes` against the process's memory
    /// limit.  An allocation that would exceed the limit traps the process:
    /// it fails with `OutOfMemory` and its linked peers observe the failure.
    pub fn allocate(&mut self, pid: u64, bytes: u64)
        requires
            old(self).wf(),
            old(self).is_running(pid),
        ensures
            final(self).wf(),
            ({
                let pa = old(self).proc(pid);
                if pa.memory_used + bytes <= pa.memory_limit {
                    &&& frame_except(*old(self), *final(self), pid)
                    &&& forall|i: int|
                        0 <= i < old(self).processes@.len() && (#[trigger] old(
                            self,
                        ).processes@[i]).id == pid ==> {
                            let pb = final(self).processes@[i];
                            &&& proc_core_eq_except_memory(old(self).processes@[i], pb)
                            &&& pb.memory_used == pa.memory_used + bytes
                        }
                } else {
                    terminated(*old(self), *final(self), pid, Fault::OutOfMemory)
                }
            }),
    {
        let ghost a = *old(self);
        proof {
            a.lemma_proc_idx(pid);
        }
        let idx = match self.find_proc(pid) {
            Some(x) => x,
            None => {
                proof {
                    assert(false);
                }
                0
            },
        };
        proof {
            assert(a.wf_quotas_at(idx as int));
            assert(a.proc(pid) == a.processes@[idx as int]);
        }
        let limit = self.processes[idx].memory_limit;
        let used = self.processes[idx].memory_used;
        if bytes > limit - used {
            self.terminate(pid, Fault::OutOfMemory);
            return ;
        }
        let mut p = self.processes.remove(idx);
        p.memory_used = used + bytes;
        self.processes.insert(idx, p);
        proof {
            assert(self.processes@ =~= a.processes@.update(idx as int, self.processes@[idx as int]));
            assert(a.wf_tags_at(idx as int));
            lemma_wf_one(a, *self, idx as int);
        }
    }

    /// Accounts consumed fuel against the process's compute budget, a
    /// budget of zero meaning unlimited.  Exhausting the budget traps the
    /// process with `OutOfFuel`.
    pub fn consume_fuel(&mut self, pid: u64, fuel: u64)
        requires
            old(self).wf(),
            old(self).is_running(pid),
        ensures
            final(self).wf(),
            ({
                let pa = old(self).proc(pid);
                if pa.compute_budget == 0 {
                    *final(self) == *old(self)
                } else if pa.fuel_used + fuel <= pa.compute_budget {
                    &&& frame_except(*old(self), *final(self), pid)
                    &&& forall|i: int|
                        0 <= i < old(self).processes@.len() && (#[trigger] old(
                            self,
                        ).processes@[i]).id == pid ==> {
                            let pb = final(self).processes@[i];
                            &&& proc_core_eq_except_fuel(old(self).processes@[i], pb)
                            &&& pb.fuel_used == pa.fuel_used + fuel
                        }
                } else {
                    terminated(*old(self), *final(self), pid, Fault::OutOfFuel)
                }
            }),
    {
        let ghost a = *old(self);
        proof {
            a.lemma_proc_idx(pid);
        }
        let idx = match self.find_proc(pid) {
            Some(x) => x,
            None => {
                proof {
                    assert(false);
                }
                0
            },
        };
        proof {
            assert(a.wf_quotas_at(idx as int));
            assert(a.proc(pid) == a.processes@[idx as int]);
        }
        let budget = self.processes[idx].compute_budget;
        let used = self.processes[idx].fuel_used;
        if budget == 0 {
            return ;
        }
        if fuel > budget - used {
            self.terminate(pid, Fault::OutOfFuel);
            return ;
        }
        let mut p = self.processes.remove(idx);
        p.fuel_used = used + fuel;
        self.processes.insert(idx, p);
        proof {
            assert(self.processes@ =~= a.processes@.update(idx as int, self.processes@[idx as int]));
            assert(a.wf_tags_at(idx as int));
            lemma_wf_one(a, *self, idx as int);
        }
    }
}

/// What one poll of an outstanding request reported.
#[derive(Debug)]
pub enum RequestOutcome {
    /// The correlated reply arrived; it carries this payload.
    Ready(Vec<u8>),
    /// The deadline passed with no correlated reply; the request is
    /// abandoned and its late reply, should one arrive, will be drained.
    Timeout,
    /// No correlated reply yet and the deadline, if any, has not passed.
    Waiting,
}

pub open spec fn is_reply_tag(e: Envelope, t: u64) -> bool {
    match e {
        Envelope::Reply { tag, .. } => tag == t,
        _ => false,
    }
}

pub open spec fn reply_payload(e: Envelope) -> Seq<u8> {
    match e {
        Envelope::Reply { payload, .. } => payload@,
        _ => Seq::empty(),
    }
}

/// The first index of a reply with the given tag, or the length if none.
pub open spec fn find_reply(mb: Seq<Envelope>, t: u64) -> int
    decreases mb.len(),
{
    if mb.len() == 0 {
        0
    } else if is_reply_tag(mb[0], t) {
        0
    } else {
        1 + find_reply(mb.drop_first(), t)
    }
}

/// The first index of an envelope that is not a reply, or the length if the
/// whole mailbox is replies.
pub open spec fn first_non_reply(mb: Seq<Envelope>) -> int
    decreases mb.len(),
{
    if mb.len() == 0 {
        0
    } else if !is_reply(mb[0]) {
        0
    } else {
        1 + first_non_reply(mb.drop_first())
    }
}

/// A mailbox without a reply carrying `t` resolves nothing for `t`.
pub proof fn lemma_find_reply_none(mb: Seq<Envelope>, t: u64)
    requires
        forall|k: int| 0 <= k < mb.len() ==> !is_reply_tag(#[trigger] mb[k], t),
    ensures
        find_reply(mb, t) == mb.len(),
{
    lemma_find_reply_char(mb, t, mb.len() as int);
}

/// The timer queue releases fire-and-forget messages only: nothing it
/// delivers is ever a reply or an exit.
pub proof fn lemma_deliveries_are_messages(s: Seq<Delayed>, r: u64)
    ensures
        forall|k: int|
            0 <= k < deliveries_to(s, r).len() ==> (#[trigger] deliveries_to(s, r)[k]) matches Envelope::Message { .. },
    decreases s.len(),
{
    if s.len() > 0 {
        lemma_deliveries_are_messages(s.drop_first(), r);
        let head: Seq<Envelope> = if s[0].receiver == r {
            seq![Envelope::Message { sender: s[0].sender, payload: s[0].payload }]
        } else {
            Seq::empty()
        };
        assert forall|k: int|
            0 <= k < deliveries_to(s, r).len() implies (#[trigger] deliveries_to(s, r)[k]) matches Envelope::Message { .. } by {
            if k < head.len() {
                assert(deliveries_to(s, r)[k] == head[0]);
            } else {
                assert(deliveries_to(s, r)[k] == deliveries_to(s.drop_first(), r)[k - head.len()]);
            }
        }
    }
}

proof fn lemma_find_reply_char(mb: Seq<Envelope>, t: u64, j: int)
    requires
        0 <= j <= mb.len(),
        forall|k: int| 0 <= k < j ==> !is_reply_tag(#[trigger] mb[k], t),
        j < mb.len() ==> is_reply_tag(mb[j], t),
    ensures
        find_reply(mb, t) == j,
    decreases mb.len(),
{
    if mb.len() > 0 && !is_reply_tag(mb[0], t) {
        assert(j > 0);
        lemma_find_reply_char(mb.drop_first(), t, j - 1);
    }
}

proof fn lemma_first_non_reply_char(mb: Seq<Envelope>, j: int)
    requires
        0 <= j <= mb.len(),
        forall|k: int| 0 <= k < j ==> is_reply(#[trigger] mb[k]),
        j < mb.len() ==> !is_reply(mb[j]),
    ensures
        first_non_reply(mb) == j,
    decreases mb.len(),
{
    if mb.len() > 0 && is_reply(mb[0]) {
        assert(j > 0);
        lemma_first_non_reply_char(mb.drop_first(), j - 1);
    }
}

/// What beginning a request does: the caller records the fresh correlation
/// tag and its deadline, the tag counter advances, and a request envelope
/// reaches the target if it is running.  A request to a dead or unknown
/// process is not an error: the caller simply waits for its deadline.
pub open spec fn requested(
    a: Node,
    b: Node,
    caller: u64,
    target: u64,
    payload: Vec<u8>,
    tag: u64,
    deadline: Option<u64>,
) -> bool {
    &&& tag == a.next_tag
    &&& b.next_tag == a.next_tag + 1
    &&& b.now == a.now
    &&& b.next_pid == a.next_pid
    &&& b.next_env_id == a.next_env_id
    &&& b.next_module_id == a.next_module_id
    &&& b.next_delay_seq == a.next_delay_seq
    &&& b.envs@ == a.envs@
    &&& b.modules@ == a.modules@
    &&& b.registry@ == a.registry@
    &&& b.this_exports@ == a.this_exports@
    &&& b.delayed@ == a.delayed@
    &&& b.processes@.len() == a.processes@.len()
    &&& forall|i: int|
        0 <= i < a.processes@.len() ==> {
            let pa = #[trigger] a.processes@[i];
            let pb = b.processes@[i];
            let gets_request = pa.id == target && pa.status is Running;
            let is_caller = pa.id == caller;
            &&& pb.id == pa.id
            &&& pb.env_id == pa.env_id
            &&& pb.status == pa.status
            &&& pb.trapping == pa.trapping
            &&& pb.links@ == pa.links@
            &&& pb.stale@ == pa.stale@
            &&& pb.memory_limit == pa.memory_limit
            &&& pb.compute_budget == pa.compute_budget
            &&& pb.memory_used == pa.memory_used
            &&& pb.fuel_used == pa.fuel_used
            &&& pb.pending == (if is_caller {
                Some(PendingRequest { tag, deadline })
            } else {
                pa.pending
            })
            &&& pb.mailbox@ == (if gets_request {
                pa.mailbox@.push(Envelope::Request { sender: caller, tag, payload })
            } else {
                pa.mailbox@
            })
        }
}

/// The deadline a request timeout translates to: the absolute instant
/// `now + d`.
pub open spec fn spec_deadline(now: u64, timeout: Option<u64>) -> Option<u64> {
    match timeout {
        Some(d) => Some((now + d) as u64),
        None => None,
    }
}

/// Equal but for the mailbox, the outstanding request and the stale tags.
pub open spec fn proc_eq_except_request(pa: ProcessState, pb: ProcessState) -> bool {
    &&& pb.id == pa.id
    &&& pb.env_id == pa.env_id
    &&& pb.status == pa.status
    &&& pb.trapping == pa.trapping
    &&& pb.links@ == pa.links@
    &&& pb.memory_limit == pa.memory_limit
    &&& pb.compute_budget == pa.compute_budget
    &&& pb.memory_used == pa.memory_used
    &&& pb.fuel_used == pa.fuel_used
}

impl Node {
    /// Begins a request from `caller` to `target`: a fresh correlation tag
    /// is drawn, the caller records it (with the absolute deadline `now +
    /// d` when a timeout `d` is given), and the request enters the target's
    /// mailbox.  The caller is then blocked: its dispatch loop makes no
    /// progress until [`Node::poll_reply`] resolves the request.  A caller
    /// without the messaging capability traps.
    pub fn request(&mut self, caller: u64, target: u64, payload: Vec<u8>, timeout: Option<u64>) -> (tag:
        u64)
        requires
            old(self).wf(),
            old(self).is_running(caller),
            old(self).proc(caller).pending is None,
            old(self).next_tag < u64::MAX,
            timeout matches Some(d) ==> old(self).now + d <= u64::MAX,
        ensures
            final(self).wf(),
            old(self).can_message(caller) ==> requested(
                *old(self),
                *final(self),
                caller,
                target,
                payload,
                tag,
                spec_deadline(old(self).now, timeout),
            ),
            !old(self).can_message(caller) ==> terminated(
                *old(self),
                *final(self),
                caller,
                Fault::NotAllowed,
            ),
    {
        let ghost a = *old(self);
        proof {
            a.lemma_proc_idx(caller);
        }
        let cidx = match self.find_proc(caller) {
            Some(x) => x,
            None => {
                proof {
                    assert(false);
                }
                0
            },
        };
        if !self.check_messaging(cidx) {
            self.terminate(caller, Fault::NotAllowed);
            return 0;
        }
        let tag = self.next_tag;
        self.next_tag = tag + 1;
        let deadline: Option<u64> = match timeout {
            Some(d) => Some(self.now + d),
            None => None,
        };
        let mut p = self.processes.remove(cidx);
        p.pending = Some(PendingRequest { tag, deadline });
        self.processes.insert(cidx, p);
        proof {
            assert(self.processes@ =~= a.processes@.update(
                cidx as int,
                self.processes@[cidx as int],
            ));
            assert(a.wf_tags_at(cidx as int));
            assert(a.wf_quotas_at(cidx as int));
            assert forall|k: int|
                0 <= k < self.processes@[cidx as int].mailbox@.len() implies env_tag_ok(
                #[trigger] self.processes@[cidx as int].mailbox@[k],
                self.next_tag,
            ) by {
                assert(env_tag_ok(a.processes@[cidx as int].mailbox@[k], a.next_tag));
            }
            assert forall|k: int|
                0 <= k < self.processes@[cidx as int].stale@.len() implies (
            #[trigger] self.processes@[cidx as int].stale@[k]) < self.next_tag by {
                assert(a.processes@[cidx as int].stale@[k] < a.next_tag);
            }
            lemma_wf_one(a, *self, cidx as int);
        }
        let ghost s1 = *self;
        self.deliver(target, Envelope::Request { sender: caller, tag, payload });
        proof {
            let e = Envelope::Request { sender: caller, tag, payload };
            assert(sent(s1, *self, target, e));
            assert forall|i: int| 0 <= i < a.processes@.len() implies {
                let pa = #[trigger] a.processes@[i];
                let pb = self.processes@[i];
                let gets_request = pa.id == target && pa.status is Running;
                let is_caller = pa.id == caller;
                &&& pb.id == pa.id
                &&& pb.env_id == pa.env_id
                &&& pb.status == pa.status
                &&& pb.trapping == pa.trapping
                &&& pb.links@ == pa.links@
                &&& pb.stale@ == pa.stale@
                &&& pb.memory_limit == pa.memory_limit
                &&& pb.compute_budget == pa.compute_budget
                &&& pb.memory_used == pa.memory_used
                &&& pb.fuel_used == pa.fuel_used
                &&& pb.pending == (if is_caller {
                    Some(PendingRequest { tag, deadline: spec_deadline(a.now, timeout) })
                } else {
                    pa.pending
                })
                &&& pb.mailbox@ == (if gets_request {
                    pa.mailbox@.push(e)
                } else {
                    pa.mailbox@
                })
            } by {
                let pa = a.processes@[i];
                let p1 = s1.processes@[i];
                if pa.id == caller {
                    assert(i == cidx as int);
                }
            }
        }
        tag
    }

    /// Polls the caller's outstanding request.  A reply carrying exactly
    /// the recorded correlation tag resolves it; otherwise, once the
    /// deadline has passed, the request times out: the caller stops
    /// waiting, and the tag is remembered as stale so that a late reply is
    /// drained rather than dispatched or matched against another request.
    pub fn poll_reply(&mut self, caller: u64) -> (r: RequestOutcome)
        requires
            old(self).wf(),
            old(self).is_running(caller),
            old(self).proc(caller).pending is Some,
        ensures
            final(self).wf(),
            ({
                let pa = old(self).proc(caller);
                let pr = pa.pending->0;
                let mb = pa.mailbox@;
                let f = find_reply(mb, pr.tag);
                if f < mb.len() {
                    &&& r matches RequestOutcome::Ready(p) && p@ == reply_payload(mb[f])
                    &&& frame_except(*old(self), *final(self), caller)
                    &&& forall|i: int|
                        0 <= i < old(self).processes@.len() && (#[trigger] old(
                            self,
                        ).processes@[i]).id == caller ==> {
                            let pb = final(self).processes@[i];
                            &&& proc_eq_except_request(old(self).processes@[i], pb)
                            &&& pb.mailbox@ == mb.remove(f)
                            &&& pb.pending is None
                            &&& pb.stale@ == pa.stale@
                        }
                } else if pr.deadline matches Some(dl) && old(self).now >= dl {
                    &&& r is Timeout
                    &&& frame_except(*old(self), *final(self), caller)
                    &&& forall|i: int|
                        0 <= i < old(self).processes@.len() && (#[trigger] old(
                            self,
                        ).processes@[i]).id == caller ==> {
                            let pb = final(self).processes@[i];
                            &&& proc_eq_except_request(old(self).processes@[i], pb)
                            &&& pb.mailbox@ == mb
                            &&& pb.pending is None
                            &&& pb.stale@ == pa.stale@.push(pr.tag)
                        }
                } else {
                    &&& r is Waiting
                    &&& *final(self) == *old(self)
                }
            }),
    {
        let ghost a = *old(self);
        proof {
            a.lemma_proc_idx(caller);
        }
        let cidx = match self.find_proc(caller) {
            Some(x) => x,
            None => {
                proof {
                    assert(false);
                }
                0
            },
        };
        proof {
            assert(a.proc(caller) == a.processes@[cidx as int]);
        }
        let pr = match self.processes[cidx].pending {
            Some(x) => x,
            None => {
                proof {
                    assert(false);
                }
                PendingRequest { tag: 0, deadline: None }
            },
        };
        let ghost mb = a.processes@[cidx as int].mailbox@;
        let mut j: usize = 0;
        let n = self.processes[cidx].mailbox.len();
        while j < n
            invariant
                0 <= j <= n,
                n == mb.len(),
                *self == a,
                a == *old(self),
                a.wf(),
                a.is_running(caller),
                cidx < a.processes@.len(),
                a.processes@[cidx as int].id == caller,
                a.proc(caller) == a.processes@[cidx as int],
                a.processes@[cidx as int].pending == Some(pr),
                mb == a.processes@[cidx as int].mailbox@,
                forall|k: int| 0 <= k < j ==> !is_reply_tag(#[trigger] mb[k], pr.tag),
            decreases n - j,
        {
            let hit = match &self.processes[cidx].mailbox[j] {
                Envelope::Reply { tag, .. } => *tag == pr.tag,
                _ => false,
            };
            if hit {
                proof {
                    lemma_find_reply_char(mb, pr.tag, j as int);
                }
                let mut p = self.processes.remove(cidx);
                let e = p.mailbox.remove(j);
                p.pending = None;
                self.processes.insert(cidx, p);
                proof {
                    assert(self.processes@ =~= a.processes@.update(
                        cidx as int,
                        self.processes@[cidx as int],
                    ));
                    assert(a.wf_tags_at(cidx as int));
                    assert(a.wf_quotas_at(cidx as int));
                    assert forall|k: int|
                        0 <= k < self.processes@[cidx as int].mailbox@.len() implies env_tag_ok(
                        #[trigger] self.processes@[cidx as int].mailbox@[k],
                        self.next_tag,
                    ) by {
                        assert(self.processes@[cidx as int].mailbox@[k] == if k < j {
                            mb[k]
                        } else {
                            mb[k + 1]
                        });
                    }
                    lemma_wf_one(a, *self, cidx as int);
                }
                let payload: Vec<u8> = match e {
                    Envelope::Reply { payload, .. } => payload,
                    _ => {
                        proof {
                            assert(false);
                        }
                        Vec::new()
                    },
                };
                return RequestOutcome::Ready(payload);
            }
            j += 1;
        }
        proof {
            lemma_find_reply_char(mb, pr.tag, mb.len() as int);
        }
        let timed_out = match pr.deadline {
            Some(dl) => self.now >= dl,
            None => false,
        };
        if timed_out {
            let mut p = self.processes.remove(cidx);
            p.pending = None;
            p.stale.push(pr.tag);
            self.processes.insert(cidx, p);
            proof {
                assert(self.processes@ =~= a.processes@.update(
                    cidx as int,
                    self.processes@[cidx as int],
                ));
                assert(a.wf_tags_at(cidx as int));
                assert(a.wf_quotas_at(cidx as int));
                assert forall|k: int|
                    0 <= k < self.processes@[cidx as int].stale@.len() implies (
                #[trigger] self.processes@[cidx as int].stale@[k]) < self.next_tag by {
                    if k < a.processes@[cidx as int].stale@.len() {
                        assert(a.processes@[cidx as int].stale@[k] < a.next_tag);
                    } else {
                        assert(self.processes@[cidx as int].stale@[k] == pr.tag);
                    }
                }
                lemma_wf_one(a, *self, cidx as int);
            }
            return RequestOutcome::Timeout;
        }
        RequestOutcome::Waiting
    }

    /// Hands out the next inbound item of a process that is not blocked on
    /// a request: the first envelope in mailbox order that is not a reply.
    /// Replies encountered before it are late replies of abandoned
    /// requests; they are drained and discarded, never dispatched.
    pub fn dispatch_next(&mut self, pid: u64) -> (r: Option<Envelope>)
        requires
            old(self).wf(),
            old(self).is_running(pid),
            old(self).proc(pid).pending is None,
        ensures
            final(self).wf(),
            frame_except(*old(self), *final(self), pid),
            ({
                let mb = old(self).proc(pid).mailbox@;
                let f = first_non_reply(mb);
                &&& forall|i: int|
                    0 <= i < old(self).processes@.len() && (#[trigger] old(self).processes@[i]).id
                        == pid ==> {
                        let pb = final(self).processes@[i];
                        &&& proc_eq_except_request(old(self).processes@[i], pb)
                        &&& pb.pending is None
                        &&& pb.stale@ == old(self).processes@[i].stale@
                        &&& pb.mailbox@ == (if f < mb.len() {
                            mb.subrange(f + 1, mb.len() as int)
                        } else {
                            Seq::empty()
                        })
                    }
                &&& (if f < mb.len() {
                    r == Some(mb[f])
                } else {
                    r is None
                })
            }),
    {
        let ghost a = *old(self);
        proof {
            a.lemma_proc_idx(pid);
        }
        let cidx = match self.find_proc(pid) {
            Some(x) => x,
            None => {
                proof {
                    assert(false);
                }
                0
            },
        };
        proof {
            assert(a.proc(pid) == a.processes@[cidx as int]);
        }
        let ghost mb = a.processes@[cidx as int].mailbox@;
        let mut j: usize = 0;
        let mut found = false;
        let n = self.processes[cidx].mailbox.len();
        while !found && j < n
            invariant
                0 <= j <= n,
                n == mb.len(),
                *self == a,
                cidx < a.processes@.len(),
                mb == a.processes@[cidx as int].mailbox@,
                forall|k: int| 0 <= k < j ==> is_reply(#[trigger] mb[k]),
                found ==> (j as int) < mb.len() && !is_reply(mb[j as int]),
            decreases n - j + (if found {
                0int
            } else {
                1int
            }),
        {
            let stop = match &self.processes[cidx].mailbox[j] {
                Envelope::Reply { .. } => false,
                _ => true,
            };
            if stop {
                found = true;
            } else {
                j += 1;
            }
        }
        proof {
            lemma_first_non_reply_char(mb, j as int);
        }
        let mut p = self.processes.remove(cidx);
        let mut tail = p.mailbox.split_off(j);
        let r: Option<Envelope> = if tail.len() > 0 {
            let e = tail.remove(0);
            Some(e)
        } else {
            None
        };
        p.mailbox = tail;
        self.processes.insert(cidx, p);
        proof {
            assert(self.processes@ =~= a.processes@.update(
                cidx as int,
                self.processes@[cidx as int],
            ));
            if (j as int) < mb.len() {
                assert(mb.subrange(j as int, mb.len() as int).remove(0) =~= mb.subrange(
                    j as int + 1,
                    mb.len() as int,
                ));
            } else {
                assert(self.processes@[cidx as int].mailbox@ =~= Seq::<Envelope>::empty());
            }
            assert(a.wf_tags_at(cidx as int));
            assert(a.wf_quotas_at(cidx as int));
            assert forall|k: int|
                0 <= k < self.processes@[cidx as int].mailbox@.len() implies env_tag_ok(
                #[trigger] self.processes@[cidx as int].mailbox@[k],
                self.next_tag,
            ) by {
                assert(self.processes@[cidx as int].mailbox@[k] == mb[j as int + 1 + k]);
            }
            lemma_wf_one(a, *self, cidx as int);
        }
        r
    }
}

/// `pb` is `pa` with one occurrence of `t` removed from its links, when one
/// was there; otherwise unchanged.
pub open spec fn link_removed(pa: ProcessState, pb: ProcessState, t: u64) -> bool {
    &&& proc_core_eq(pa, pb)
    &&& pb.status == pa.status
    &&& pb.mailbox@ == pa.mailbox@
    &&& (pa.links@.contains(t) ==> exists|li: int|
        0 <= li < pa.links@.len() && pa.links@[li] == t && pb.links@ == pa.links@.remove(li))
    &&& (!pa.links@.contains(t) ==> pb.links@ == pa.links@)
    &&& !pb.links@.contains(t)
}

/// `pb` is `pa` with `t` appended to its links.
pub open spec fn link_added(pa: ProcessState, pb: ProcessState, t: u64) -> bool {
    &&& proc_core_eq(pa, pb)
    &&& pb.status == pa.status
    &&& pb.mailbox@ == pa.mailbox@
    &&& pb.links@ == pa.links@.push(t)
}

/// Equal but for the links.
pub open spec fn proc_eq_except_links(pa: ProcessState, pb: ProcessState) -> bool {
    &&& proc_core_eq(pa, pb)
    &&& pb.status == pa.status
    &&& pb.mailbox@ == pa.mailbox@
}

impl Node {
    /// Establishes a link between two running processes.  The relation is
    /// symmetric, and linking twice is the same as linking once.
    #[verifier::rlimit(100)]
    pub fn link(&mut self, x: u64, y: u64)
        requires
            old(self).wf(),
            old(self).is_running(x),
            old(self).is_running(y),
            x != y,
        ensures
            final(self).wf(),
            final(self).linked(x, y),
            old(self).linked(x, y) ==> *final(self) == *old(self),
            !old(self).linked(x, y) ==> {
                &&& unchanged_meta(*old(self), *final(self))
                &&& final(self).delayed@ == old(self).delayed@
                &&& final(self).processes@.len() == old(self).processes@.len()
                &&& forall|i: int|
                    0 <= i < old(self).processes@.len() ==> {
                        let pa = #[trigger] old(self).processes@[i];
                        let pb = final(self).processes@[i];
                        if pa.id == x {
                            link_added(pa, pb, y)
                        } else if pa.id == y {
                            link_added(pa, pb, x)
                        } else {
                            pb == pa
                        }
                    }
            },
    {
        let ghost a = *old(self);
        proof {
            a.lemma_proc_idx(x);
            a.lemma_proc_idx(y);
        }
        let xi = match self.find_proc(x) {
            Some(i) => i,
            None => {
                proof {
                    assert(false);
                }
                0
            },
        };
        let yi = match self.find_proc(y) {
            Some(i) => i,
            None => {
                proof {
                    assert(false);
                }
                0
            },
        };
        let already = match find_in(&self.processes[xi].links, y) {
            Some(_) => true,
            None => false,
        };
        if already {
            proof {
                assert(a.proc(x) == a.processes@[xi as int]);
                assert(a.proc(y) == a.processes@[yi as int]);
                let k = choose|k: int|
                    0 <= k < a.processes@[xi as int].links@.len()
                        && a.processes@[xi as int].links@[k] == y;
                assert(a.wf_links_at(xi as int));
                assert(a.link_ok(xi as int, k));
                let j = choose|j: int|
                    0 <= j < a.processes@.len() && (#[trigger] a.processes@[j]).id == y
                        && a.processes@[j].links@.contains(x);
                assert(j == yi as int);
            }
            return ;
        }
        proof {
            // y's links cannot hold x either, by symmetry
            assert(a.proc(x) == a.processes@[xi as int]);
            assert(a.proc(y) == a.processes@[yi as int]);
            if a.processes@[yi as int].links@.contains(x) {
                let k = choose|k: int|
                    0 <= k < a.processes@[yi as int].links@.len()
                        && a.processes@[yi as int].links@[k] == x;
                assert(a.wf_links_at(yi as int));
                assert(a.link_ok(yi as int, k));
                let j = choose|j: int|
                    0 <= j < a.processes@.len() && (#[trigger] a.processes@[j]).id == x
                        && a.processes@[j].links@.contains(y);
                assert(j == xi as int);
                assert(false);
            }
        }
        let mut px = self.processes.remove(xi);
        px.links.push(y);
        self.processes.insert(xi, px);
        let ghost s1 = *self;
        let mut py = self.processes.remove(yi);
        py.links.push(x);
        self.processes.insert(yi, py);
        proof {
            assert(s1.processes@ =~= a.processes@.update(xi as int, s1.processes@[xi as int]));
            assert(self.processes@ =~= s1.processes@.update(yi as int, self.processes@[yi as int]));
            let n = a.processes@.len();
            assert(forall|i: int|
                0 <= i < n && i != xi as int && i != yi as int ==> self.processes@[i]
                    == a.processes@[i]);
            assert(self.processes@[xi as int].links@ == a.processes@[xi as int].links@.push(y));
            assert(self.processes@[yi as int].links@ == a.processes@[yi as int].links@.push(x));
            assert(forall|i: int|
                0 <= i < n ==> (#[trigger] self.processes@[i]).id == a.processes@[i].id);
            assert(self.wf_ids());
            assert forall|i: int| 0 <= i < n implies #[trigger] self.wf_links_at(i) by {
                assert(a.wf_links_at(i));
                let pa = a.processes@[i];
                let pb = self.processes@[i];
                assert(pb.status == pa.status);
                assert forall|k: int| 0 <= k < pb.links@.len() implies #[trigger] self.link_ok(
                    i,
                    k,
                ) by {
                    let t = pb.links@[k];
                    if k < pa.links@.len() {
                        assert(a.link_ok(i, k));
                        let j = choose|j: int|
                            0 <= j < n && (#[trigger] a.processes@[j]).id == t
                                && a.processes@[j].links@.contains(pa.id);
                        assert(self.processes@[j].id == t);
                        assert(self.processes@[j].links@.contains(pa.id)) by {
                            let m = choose|m: int|
                                0 <= m < a.processes@[j].links@.len()
                                    && a.processes@[j].links@[m] == pa.id;
                            assert(self.processes@[j].links@[m] == pa.id);
                        }
                        assert forall|k2: int|
                            0 <= k2 < pb.links@.len() && k2 != k implies pb.links@[k2] != t by {
                            if k2 < pa.links@.len() {
                            } else {
                                // the appended identifier was not linked before
                                if i == xi as int {
                                    assert(pb.links@[k2] == y);
                                    assert(!pa.links@.contains(y));
                                    assert(pa.links@[k] == t);
                                    assert(pa.links@.contains(t));
                                } else {
                                    assert(i == yi as int);
                                    assert(pb.links@[k2] == x);
                                    assert(!pa.links@.contains(x));
                                    assert(pa.links@[k] == t);
                                    assert(pa.links@.contains(t));
                                }
                            }
                        }
                    } else {
                        // the new slot
                        if i == xi as int {
                            assert(t == y);
                            assert(self.processes@[yi as int].id == y);
                            assert(self.processes@[yi as int].links@.contains(pa.id)) by {
                                assert(self.processes@[yi as int].links@.last() == x);
                            }
                            assert forall|k2: int|
                                0 <= k2 < pb.links@.len() && k2 != k implies pb.links@[k2] != t by {
                                assert(pb.links@[k2] == pa.links@[k2]);
                                assert(!pa.links@.contains(y));
                            }
                        } else {
                            assert(i == yi as int);
                            assert(t == x);
                            assert(self.processes@[xi as int].id == x);
                            assert(self.processes@[xi as int].links@.contains(pa.id)) by {
                                assert(self.processes@[xi as int].links@.last() == y);
                            }
                            assert forall|k2: int|
                                0 <= k2 < pb.links@.len() && k2 != k implies pb.links@[k2] != t by {
                                assert(pb.links@[k2] == pa.links@[k2]);
                                assert(!pa.links@.contains(x));
                            }
                        }
                    }
                }
            }
            assert forall|i: int| 0 <= i < n implies #[trigger] self.wf_tags_at(i) by {
                assert(a.wf_tags_at(i));
            }
            assert forall|i: int| 0 <= i < n implies #[trigger] self.wf_quotas_at(i) by {
                assert(a.wf_quotas_at(i));
            }
            assert forall|i: int| 0 <= i < n implies self.has_env(
                (#[trigger] self.processes@[i]).env_id,
            ) by {
                let e = a.processes@[i].env_id;
                assert(self.processes@[i].env_id == e);
                assert(a.has_env(e));
                let j = choose|j: int| 0 <= j < a.envs@.len() && (#[trigger] a.envs@[j]).id == e;
                assert(self.envs@[j].id == e);
            }
            assert forall|i: int| 0 <= i < self.modules@.len() implies self.has_env(
                (#[trigger] self.modules@[i]).env_id,
            ) by {
                let e = a.modules@[i].env_id;
                assert(a.has_env(e));
                let j = choose|j: int| 0 <= j < a.envs@.len() && (#[trigger] a.envs@[j]).id == e;
                assert(self.envs@[j].id == e);
            }
            assert(self.wf_refs());
            assert(self.wf_delayed());
            assert(self.wf_registry());
            assert(self.linked(x, y)) by {
                self.lemma_proc_idx(x);
                self.lemma_proc_idx(y);
                assert(self.proc(x) == self.processes@[xi as int]);
                assert(self.proc(y) == self.processes@[yi as int]);
                assert(self.processes@[xi as int].links@.last() == y);
                assert(self.processes@[yi as int].links@.last() == x);
            }
        }
    }

    /// Removes the link between two processes, in both directions.  An
    /// absent link makes this a no-op; a removed link is never notified
    /// again.
    #[verifier::rlimit(100)]
    pub fn unlink(&mut self, x: u64, y: u64)
        requires
            old(self).wf(),
        ensures
            final(self).wf(),
            unchanged_meta(*old(self), *final(self)),
            final(self).delayed@ == old(self).delayed@,
            final(self).processes@.len() == old(self).processes@.len(),
            x != y ==> forall|i: int|
                0 <= i < old(self).processes@.len() ==> {
                    let pa = #[trigger] old(self).processes@[i];
                    let pb = final(self).processes@[i];
                    if pa.id == x {
                        link_removed(pa, pb, y)
                    } else if pa.id == y {
                        link_removed(pa, pb, x)
                    } else {
                        pb == pa
                    }
                },
            x == y ==> *final(self) == *old(self),
    {
        let ghost a = *old(self);
        if x == y {
            return ;
        }
        let xi_opt = self.find_proc(x);
        proof {
            if a.has_proc(x) {
                a.lemma_proc_idx(x);
            }
        }
        match xi_opt {
            Some(xi) => {
                let mut px = self.processes.remove(xi);
                match find_in(&px.links, y) {
                    Some(li) => {
                        let ghost l0 = px.links@;
                        px.links.remove(li);
                        proof {
                            assert(l0.contains(y)) by {
                                assert(l0[li as int] == y);
                            }
                            assert(exists|lj: int|
                                0 <= lj < l0.len() && l0[lj] == y && px.links@ == l0.remove(lj)) by {
                                assert((li as int) < l0.len() && l0[li as int] == y && px.links@
                                    == l0.remove(li as int));
                            }
                        }
                    },
                    None => {},
                }
                self.processes.insert(xi, px);
                proof {
                    assert(self.processes@ =~= a.processes@.update(
                        xi as int,
                        self.processes@[xi as int],
                    ));
                    assert forall|i: int| 0 <= i < a.processes@.len() implies #[trigger] unlink_half(
                        a,
                        *self,
                        x,
                        y,
                        i,
                    ) by {
                        if a.processes@[i].id == x {
                            assert(i == xi as int);
                        }
                    }
                }
            },
            None => {
                proof {
                    assert forall|i: int| 0 <= i < a.processes@.len() implies #[trigger] unlink_half(
                        a,
                        *self,
                        x,
                        y,
                        i,
                    ) by {
                        assert(a.processes@[i].id != x);
                    }
                }
            },
        }
        let ghost s1 = *self;
        let yi_opt = self.find_proc(y);
        proof {
            if s1.has_proc(y) {
                assert(s1.wf_ids()) by {
                    lemma_unlink_half_wf_ids(a, s1, x, y);
                }
                s1.lemma_proc_idx(y);
            }
        }
        match yi_opt {
            Some(yi) => {
                let mut py = self.processes.remove(yi);
                match find_in(&py.links, x) {
                    Some(li) => {
                        let ghost l0 = py.links@;
                        py.links.remove(li);
                        proof {
                            assert(l0.contains(x)) by {
                                assert(l0[li as int] == x);
                            }
                            assert(exists|lj: int|
                                0 <= lj < l0.len() && l0[lj] == x && py.links@ == l0.remove(lj)) by {
                                assert((li as int) < l0.len() && l0[li as int] == x && py.links@
                                    == l0.remove(li as int));
                            }
                        }
                    },
                    None => {},
                }
                self.processes.insert(yi, py);
                proof {
                    assert(self.processes@ =~= s1.processes@.update(
                        yi as int,
                        self.processes@[yi as int],
                    ));
                    assert forall|i: int| 0 <= i < s1.processes@.len() implies #[trigger] unlink_half(
                        s1,
                        *self,
                        y,
                        x,
                        i,
                    ) by {
                        if s1.processes@[i].id == y {
                            assert(i == yi as int);
                        }
                    }
                }
            },
            None => {
                proof {
                    assert forall|i: int| 0 <= i < s1.processes@.len() implies #[trigger] unlink_half(
                        s1,
                        *self,
                        y,
                        x,
                        i,
                    ) by {
                        assert(s1.processes@[i].id != y);
                    }
                }
            },
        }
        proof {
            lemma_unlink_wf(a, s1, *self, x, y);
        }
    }
}

/// One side of an unlink: the process with identifier `x` lost one
/// occurrence of `y` from its links (when present); every other process is
/// untouched.
pub open spec fn unlink_half(a: Node, b: Node, x: u64, y: u64, i: int) -> bool {
    let pa = a.processes@[i];
    let pb = b.processes@[i];
    if pa.id == x {
        proc_eq_except_links(pa, pb) && ((pa.links@.contains(y) && exists|li: int|
            0 <= li < pa.links@.len() && pa.links@[li] == y && pb.links@ == pa.links@.remove(li))
            || (!pa.links@.contains(y) && pb.links@ == pa.links@))
    } else {
        pb == pa
    }
}

proof fn lemma_unlink_half_wf_ids(a: Node, b: Node, x: u64, y: u64)
    requires
        a.wf_ids(),
        unchanged_meta(a, b),
        b.processes@.len() == a.processes@.len(),
        forall|i: int| 0 <= i < a.processes@.len() ==> #[trigger] unlink_half(a, b, x, y, i),
    ensures
        b.wf_ids(),
{
    assert forall|i: int|
        0 <= i < b.processes@.len() implies (#[trigger] b.processes@[i]).id == a.processes@[i].id by {
        assert(unlink_half(a, b, x, y, i));
    }
}

/// No-duplicate link lists lose a value entirely when one occurrence is
/// removed.
proof fn lemma_remove_unique(s: Seq<u64>, li: int, a: Node, i: int)
    requires
        0 <= li < s.len(),
        0 <= i < a.processes@.len(),
        a.wf(),
        s == a.processes@[i].links@,
    ensures
        !s.remove(li).contains(s[li]),
        forall|t: u64| t != s[li] ==> (s.remove(li).contains(t) == s.contains(t)),
        forall|k1: int, k2: int|
            0 <= k1 < k2 < s.remove(li).len() ==> s.remove(li)[k1] != s.remove(li)[k2],
        forall|k: int| 0 <= k < s.remove(li).len() ==> s.contains(#[trigger] s.remove(li)[k]),
{
    assert(a.wf_links_at(i));
    assert(forall|k: int| 0 <= k < s.len() ==> #[trigger] a.link_ok(i, k));
    let r = s.remove(li);
    assert(forall|k: int| 0 <= k < r.len() ==> r[k] == (if k < li {
        s[k]
    } else {
        s[k + 1]
    }));
    assert forall|k: int| 0 <= k < r.len() implies s.contains(#[trigger] r[k]) by {
        if k < li {
            assert(r[k] == s[k]);
        } else {
            assert(r[k] == s[k + 1]);
        }
    }
    assert(!r.contains(s[li])) by {
        if r.contains(s[li]) {
            let k = choose|k: int| 0 <= k < r.len() && r[k] == s[li];
            if k < li {
                assert(a.link_ok(i, li));
                assert(s[k] != s[li]);
            } else {
                assert(a.link_ok(i, li));
                assert(s[k + 1] != s[li]);
            }
        }
    }
    assert forall|t: u64| t != s[li] implies (r.contains(t) == s.contains(t)) by {
        if s.contains(t) {
            let k = choose|k: int| 0 <= k < s.len() && s[k] == t;
            if k < li {
                assert(r[k] == t);
            } else {
                assert(k != li);
                assert(r[k - 1] == t);
            }
            assert(r.contains(t));
        }
        if r.contains(t) {
            let k = choose|k: int| 0 <= k < r.len() && r[k] == t;
            if k < li {
                assert(s[k] == t);
            } else {
                assert(s[k + 1] == t);
            }
            assert(s.contains(t));
        }
    }
    assert forall|k1: int, k2: int| 0 <= k1 < k2 < r.len() implies r[k1] != r[k2] by {
        let m1 = if k1 < li {
            k1
        } else {
            k1 + 1
        };
        let m2 = if k2 < li {
            k2
        } else {
            k2 + 1
        };
        assert(r[k1] == s[m1] && r[k2] == s[m2]);
        assert(a.link_ok(i, m2));
    }
}

/// Both directions of an unlink preserve the node invariant.
#[verifier::rlimit(60)]
proof fn lemma_unlink_wf(a: Node, s1: Node, b: Node, x: u64, y: u64)
    requires
        a.wf(),
        x != y,
        unchanged_meta(a, s1),
        unchanged_meta(s1, b),
        s1.delayed@ == a.delayed@,
        b.delayed@ == s1.delayed@,
        s1.processes@.len() == a.processes@.len(),
        b.processes@.len() == s1.processes@.len(),
        forall|i: int| 0 <= i < a.processes@.len() ==> #[trigger] unlink_half(a, s1, x, y, i),
        forall|i: int| 0 <= i < s1.processes@.len() ==> #[trigger] unlink_half(s1, b, y, x, i),
    ensures
        b.wf(),
        forall|i: int|
            0 <= i < a.processes@.len() ==> {
                let pa = #[trigger] a.processes@[i];
                let pb = b.processes@[i];
                if pa.id == x {
                    link_removed(pa, pb, y)
                } else if pa.id == y {
                    link_removed(pa, pb, x)
                } else {
                    pb == pa
                }
            },
{
    let n = a.processes@.len();
    assert forall|i: int|
        0 <= i < n implies (#[trigger] b.processes@[i]).id == a.processes@[i].id by {
        assert(unlink_half(a, s1, x, y, i));
        assert(unlink_half(s1, b, y, x, i));
    }
    // pointwise description of the final state
    assert forall|i: int| 0 <= i < n implies {
        let pa = #[trigger] a.processes@[i];
        let pb = b.processes@[i];
        if pa.id == x {
            link_removed(pa, pb, y)
        } else if pa.id == y {
            link_removed(pa, pb, x)
        } else {
            pb == pa
        }
    } by {
        let pa = a.processes@[i];
        let pm = s1.processes@[i];
        let pb = b.processes@[i];
        assert(unlink_half(a, s1, x, y, i));
        assert(unlink_half(s1, b, y, x, i));
        if pa.id == x {
            assert(pb == pm);
            if pa.links@.contains(y) {
                let li = choose|li: int|
                    0 <= li < pa.links@.len() && pa.links@[li] == y && pm.links@
                        == pa.links@.remove(li);
                lemma_remove_unique(pa.links@, li, a, i);
            }
        } else if pa.id == y {
            assert(pm == pa);
            if pa.links@.contains(x) {
                let li = choose|li: int|
                    0 <= li < pm.links@.len() && pm.links@[li] == x && pb.links@
                        == pm.links@.remove(li);
                lemma_remove_unique(pa.links@, li, a, i);
            }
        } else {
        }
    }
    assert(b.wf_ids());
    assert forall|i: int| 0 <= i < n implies #[trigger] b.wf_links_at(i) by {
        assert(a.wf_links_at(i));
        assert(unlink_half(a, s1, x, y, i));
        assert(unlink_half(s1, b, y, x, i));
        let pa = a.processes@[i];
        let pb = b.processes@[i];
        assert(pb.status == pa.status);
        assert forall|k: int| 0 <= k < pb.links@.len() implies #[trigger] b.link_ok(i, k) by {
            let t = pb.links@[k];
            // t survives in pa's links, and no duplicate was created
            if pa.id == x && pa.links@.contains(y) {
                let li = choose|li: int|
                    0 <= li < pa.links@.len() && pa.links@[li] == y && pb.links@
                        == pa.links@.remove(li);
                lemma_remove_unique(pa.links@, li, a, i);
            } else if pa.id == y && pa.links@.contains(x) {
                let li = choose|li: int|
                    0 <= li < pa.links@.len() && pa.links@[li] == x && pb.links@
                        == pa.links@.remove(li);
                lemma_remove_unique(pa.links@, li, a, i);
            }
            assert(pa.links@.contains(t));
            let km = choose|km: int| 0 <= km < pa.links@.len() && pa.links@[km] == t;
            assert(a.link_ok(i, km));
            assert(t != pa.id);
            assert forall|k2: int| 0 <= k2 < pb.links@.len() && k2 != k implies pb.links@[k2] != t by {
                if pa.id == x && pa.links@.contains(y) {
                    let li = choose|li: int|
                        0 <= li < pa.links@.len() && pa.links@[li] == y && pb.links@
                            == pa.links@.remove(li);
                    lemma_remove_unique(pa.links@, li, a, i);
                } else if pa.id == y && pa.links@.contains(x) {
                    let li = choose|li: int|
                        0 <= li < pa.links@.len() && pa.links@[li] == x && pb.links@
                            == pa.links@.remove(li);
                    lemma_remove_unique(pa.links@, li, a, i);
                }
            }
            // the backlink survives on t's side
            let j = choose|j: int|
                0 <= j < n && (#[trigger] a.processes@[j]).id == t && a.processes@[j].links@.contains(
                    pa.id,
                );
            assert(unlink_half(a, s1, x, y, j));
            assert(unlink_half(s1, b, y, x, j));
            let pj = a.processes@[j];
            assert(b.processes@[j].id == t);
            assert(b.processes@[j].links@.contains(pa.id)) by {
                if pj.id == x {
                    if pa.id == y {
                        // impossible: the link to x was removed from y's side
                        assert(t == x);
                        assert(link_removed(pa, pb, x)) by {
                            if pa.links@.contains(x) {
                                let li = choose|li: int|
                                    0 <= li < pa.links@.len() && pa.links@[li] == x && pb.links@
                                        == pa.links@.remove(li);
                                lemma_remove_unique(pa.links@, li, a, i);
                            }
                        }
                        assert(!pb.links@.contains(x));
                        assert(pb.links@[k] == x);
                        assert(false);
                    }
                    if pj.links@.contains(y) {
                        let li = choose|li: int|
                            0 <= li < pj.links@.len() && pj.links@[li] == y && b.processes@[j].links@
                                == pj.links@.remove(li);
                        lemma_remove_unique(pj.links@, li, a, j);
                    }
                } else if pj.id == y {
                    if pa.id == x {
                        // impossible: the link to y was removed from x's side
                        assert(t == y);
                        assert(link_removed(pa, pb, y)) by {
                            if pa.links@.contains(y) {
                                let li = choose|li: int|
                                    0 <= li < pa.links@.len() && pa.links@[li] == y && pb.links@
                                        == pa.links@.remove(li);
                                lemma_remove_unique(pa.links@, li, a, i);
                            }
                        }
                        assert(!pb.links@.contains(y));
                        assert(pb.links@[k] == y);
                        assert(false);
                    }
                    if pj.links@.contains(x) {
                        let li = choose|li: int|
                            0 <= li < pj.links@.len() && pj.links@[li] == x && b.processes@[j].links@
                                == pj.links@.remove(li);
                        lemma_remove_unique(pj.links@, li, a, j);
                    }
                } else {
                    assert(b.processes@[j].links@ == pj.links@);
                }
            }
        }
        if !(pb.status is Running) {
            assert(pa.links@.len() == 0);
            assert(pb.links@.len() == 0);
        }
    }
    assert forall|i: int| 0 <= i < n implies #[trigger] b.wf_tags_at(i) by {
        assert(a.wf_tags_at(i));
        assert(unlink_half(a, s1, x, y, i));
        assert(unlink_half(s1, b, y, x, i));
    }
    assert forall|i: int| 0 <= i < n implies #[trigger] b.wf_quotas_at(i) by {
        assert(a.wf_quotas_at(i));
        assert(unlink_half(a, s1, x, y, i));
        assert(unlink_half(s1, b, y, x, i));
    }
    assert(b.wf_refs()) by {
        assert forall|i: int|
            0 <= i < n implies (#[trigger] b.processes@[i]).env_id == a.processes@[i].env_id by {
            assert(unlink_half(a, s1, x, y, i));
            assert(unlink_half(s1, b, y, x, i));
        }
    }
    assert(b.wf_delayed());
    assert(b.wf_registry());
}


/// Why a spawn was refused.
#[derive(Clone, Copy, PartialEq, Eq, Structural, Debug)]
pub enum SpawnError {
    /// The module exports no entry point of that name.
    EntryPointMissing,
    /// The declared kinds of the supplied parameters do not exactly match
    /// the entry point's signature.
    ParamMismatch,
}

/// A registry operation's failure.
#[derive(Clone, Copy, PartialEq, Eq, Structural, Debug)]
pub enum RegistryError {
    /// The version was not an exact semantic version, or the query was not
    /// a well-formed version query.
    IncorrectSemver,
    /// A malformed query, reported by hosts that distinguish it.
    IncorrectQuery,
    /// Nothing is registered under the key.
    NotFound,
}

/// The first export with the given name bytes, or the length if none.
pub open spec fn export_idx(exports: Seq<Export>, f: Seq<u8>) -> int
    decreases exports.len(),
{
    if exports.len() == 0 {
        0
    } else if str_bytes(exports[0].name@) == f {
        0
    } else {
        1 + export_idx(exports.drop_first(), f)
    }
}

/// Two export tables that agree on names and parameter kinds.
pub open spec fn exports_like(e1: Seq<Export>, e2: Seq<Export>) -> bool {
    &&& e1.len() == e2.len()
    &&& forall|i: int|
        0 <= i < e1.len() ==> (#[trigger] e1[i]).name@ == e2[i].name@ && e1[i].param_kinds@
            == e2[i].param_kinds@
}

/// Lookup by name is the same in agreeing export tables.
pub proof fn lemma_export_idx_like(e1: Seq<Export>, e2: Seq<Export>, f: Seq<u8>)
    requires
        exports_like(e1, e2),
    ensures
        export_idx(e1, f) == export_idx(e2, f),
    decreases e1.len(),
{
    if e1.len() > 0 {
        assert(e1[0].name@ == e2[0].name@);
        assert(exports_like(e1.drop_first(), e2.drop_first())) by {
            assert(forall|i: int|
                0 <= i < e1.drop_first().len() ==> (#[trigger] e1.drop_first()[i]) == e1[i + 1]
                    && e2.drop_first()[i] == e2[i + 1]);
        }
        lemma_export_idx_like(e1.drop_first(), e2.drop_first(), f);
    }
}

/// The export index is a position in the table, or just past it.
pub proof fn lemma_export_idx_bounds(exports: Seq<Export>, f: Seq<u8>)
    ensures
        0 <= export_idx(exports, f) <= exports.len(),
    decreases exports.len(),
{
    if exports.len() > 0 && str_bytes(exports[0].name@) != f {
        lemma_export_idx_bounds(exports.drop_first(), f);
    }
}

proof fn lemma_export_idx_char(exports: Seq<Export>, f: Seq<u8>, j: int)
    requires
        0 <= j <= exports.len(),
        forall|k: int| 0 <= k < j ==> str_bytes((#[trigger] exports[k]).name@) != f,
        j < exports.len() ==> str_bytes(exports[j].name@) == f,
    ensures
        export_idx(exports, f) == j,
    decreases exports.len(),
{
    if exports.len() > 0 && str_bytes(exports[0].name@) != f {
        assert(j > 0);
        lemma_export_idx_char(exports.drop_first(), f, j - 1);
    }
}

/// The newly spawned process: fresh identity, fresh empty mailbox, quotas
/// copy-captured from the environment, linked atomically to the spawner
/// when asked to.
pub open spec fn fresh_proc(
    p: ProcessState,
    pid: u64,
    env: EnvState,
    link_to: Option<u64>,
) -> bool {
    &&& p.id == pid
    &&& p.env_id == env.id
    &&& p.status is Running
    &&& !p.trapping
    &&& p.mailbox@ == Seq::<Envelope>::empty()
    &&& p.links@ == (match link_to {
        Some(c) => seq![c],
        None => Seq::<u64>::empty(),
    })
    &&& p.pending is None
    &&& p.stale@ == Seq::<u64>::empty()
    &&& p.memory_limit == env.config.memory_limit
    &&& p.compute_budget == env.config.compute_budget
    &&& p.memory_used == 0
    &&& p.fuel_used == 0
}

/// What a successful spawn does to the node.
pub open spec fn spawned(a: Node, b: Node, module_id: u64, pid: u64, link_to: Option<u64>) -> bool {
    &&& pid == a.next_pid
    &&& b.next_pid == a.next_pid + 1
    &&& b.now == a.now
    &&& b.next_tag == a.next_tag
    &&& b.next_env_id == a.next_env_id
    &&& b.next_module_id == a.next_module_id
    &&& b.next_delay_seq == a.next_delay_seq
    &&& b.envs@ == a.envs@
    &&& b.modules@ == a.modules@
    &&& b.registry@ == a.registry@
    &&& b.this_exports@ == a.this_exports@
    &&& b.delayed@ == a.delayed@
    &&& b.processes@.len() == a.processes@.len() + 1
    &&& fresh_proc(b.processes@.last(), pid, a.env_st(a.module_st(module_id).env_id), link_to)
    &&& forall|i: int|
        0 <= i < a.processes@.len() ==> {
            let pa = #[trigger] a.processes@[i];
            let pb = b.processes@[i];
            if link_to matches Some(c) && pa.id == c {
                link_added(pa, pb, pid)
            } else {
                pb == pa
            }
        }
}

/// An entry matches a lookup when environment, name and version query all
/// agree.
pub open spec fn entry_matches(
    e: RegEntry,
    env_id: u64,
    name: Seq<u8>,
    q: crate::semver::VersionQuery,
) -> bool {
    e.env_id == env_id && str_bytes(e.name@) == name && crate::semver::query_matches(q, e.version)
}

impl Node {
    /// Ends a process normally.  Its links are quietly dissolved on both
    /// sides — normal return does not propagate over links — and no
    /// mailbox anywhere changes.
    pub fn finish(&mut self, pid: u64)
        requires
            old(self).wf(),
            old(self).is_running(pid),
        ensures
            final(self).wf(),
            unchanged_meta(*old(self), *final(self)),
            final(self).delayed@ == old(self).delayed@,
            final(self).processes@.len() == old(self).processes@.len(),
            forall|i: int|
                0 <= i < old(self).processes@.len() ==> {
                    let pa = #[trigger] old(self).processes@[i];
                    let pb = final(self).processes@[i];
                    if pa.id == pid {
                        &&& proc_core_eq(pa, pb)
                        &&& pb.mailbox@ == pa.mailbox@
                        &&& pb.status == Status::Finished
                        &&& pb.links@.len() == 0
                    } else {
                        &&& proc_eq_except_links(pa, pb)
                        &&& !pb.links@.contains(pid)
                        &&& forall|t: u64|
                            t != pid ==> (pb.links@.contains(t) == pa.links@.contains(t))
                        &&& forall|k: int|
                            0 <= k < pb.links@.len() ==> pa.links@.contains(
                                #[trigger] pb.links@[k],
                            )
                    }
                },
    {
        let ghost a = *old(self);
        proof {
            a.lemma_proc_idx(pid);
        }
        let idx = match self.find_proc(pid) {
            Some(x) => x,
            None => {
                proof {
                    assert(false);
                }
                0
            },
        };
        while self.processes[idx].links.len() > 0
            invariant
                self.wf(),
                a.wf(),
                a == *old(self),
                unchanged_meta(a, *self),
                self.delayed@ == a.delayed@,
                self.processes@.len() == a.processes@.len(),
                idx < a.processes@.len(),
                a.processes@[idx as int].id == pid,
                self.processes@[idx as int].id == pid,
                forall|i: int|
                    0 <= i < a.processes@.len() ==> {
                        let pa = #[trigger] a.processes@[i];
                        let pb = self.processes@[i];
                        if pa.id == pid {
                            &&& proc_core_eq(pa, pb)
                            &&& pb.mailbox@ == pa.mailbox@
                            &&& pb.status == pa.status
                            &&& forall|k: int|
                                0 <= k < pb.links@.len() ==> pa.links@.contains(
                                    #[trigger] pb.links@[k],
                                )
                        } else {
                            &&& proc_eq_except_links(pa, pb)
                            &&& forall|t: u64|
                                t != pid ==> (pb.links@.contains(t) == pa.links@.contains(t))
                            &&& forall|k: int|
                                0 <= k < pb.links@.len() ==> pa.links@.contains(
                                    #[trigger] pb.links@[k],
                                )
                        }
                    },
            decreases self.processes@[idx as int].links@.len(),
        {
            let ghost prev = *self;
            let peer = self.processes[idx].links[0];
            proof {
                assert(prev.processes@[idx as int].links@.contains(peer)) by {
                    assert(prev.processes@[idx as int].links@[0] == peer);
                }
                assert(peer != pid) by {
                    assert(prev.wf_links_at(idx as int));
                    assert(prev.link_ok(idx as int, 0));
                }
            }
            self.unlink(pid, peer);
            proof {
                assert forall|i: int| 0 <= i < a.processes@.len() implies {
                    let pa = #[trigger] a.processes@[i];
                    let pb = self.processes@[i];
                    if pa.id == pid {
                        &&& proc_core_eq(pa, pb)
                        &&& pb.mailbox@ == pa.mailbox@
                        &&& pb.status == pa.status
                        &&& forall|k: int|
                            0 <= k < pb.links@.len() ==> pa.links@.contains(#[trigger] pb.links@[k])
                    } else {
                        &&& proc_eq_except_links(pa, pb)
                        &&& forall|t: u64|
                            t != pid ==> (pb.links@.contains(t) == pa.links@.contains(t))
                        &&& forall|k: int|
                            0 <= k < pb.links@.len() ==> pa.links@.contains(#[trigger] pb.links@[k])
                    }
                } by {
                    let pa = a.processes@[i];
                    let pm = prev.processes@[i];
                    let pb = self.processes@[i];
                    if pa.id == pid {
                        assert(link_removed(pm, pb, peer));
                        assert forall|k: int|
                            0 <= k < pb.links@.len() implies pa.links@.contains(
                            #[trigger] pb.links@[k],
                        ) by {
                            assert(pm.links@.contains(pb.links@[k])) by {
                                if pm.links@.contains(peer) {
                                    let li = choose|li: int|
                                        0 <= li < pm.links@.len() && pm.links@[li] == peer
                                            && pb.links@ == pm.links@.remove(li);
                                    let mk = if k < li {
                                        k
                                    } else {
                                        k + 1
                                    };
                                    assert(pb.links@[k] == pm.links@[mk]);
                                }
                            }
                        }
                    } else if pa.id == peer {
                        assert(link_removed(pm, pb, pid));
                        assert forall|t: u64|
                            t != pid implies (pb.links@.contains(t) == pa.links@.contains(t)) by {
                            if pm.links@.contains(pid) {
                                let li = choose|li: int|
                                    0 <= li < pm.links@.len() && pm.links@[li] == pid && pb.links@
                                        == pm.links@.remove(li);
                                lemma_remove_unique(pm.links@, li, prev, i);
                            }
                        }
                        assert forall|k: int|
                            0 <= k < pb.links@.len() implies pa.links@.contains(
                            #[trigger] pb.links@[k],
                        ) by {
                            assert(pm.links@.contains(pb.links@[k])) by {
                                if pm.links@.contains(pid) {
                                    let li = choose|li: int|
                                        0 <= li < pm.links@.len() && pm.links@[li] == pid
                                            && pb.links@ == pm.links@.remove(li);
                                    let mk = if k < li {
                                        k
                                    } else {
                                        k + 1
                                    };
                                    assert(pb.links@[k] == pm.links@[mk]);
                                }
                            }
                        }
                    } else {
                        assert(pb == pm);
                    }
                }
                // the loop measure shrank: one occurrence of peer left
                assert(link_removed(prev.processes@[idx as int], self.processes@[idx as int], peer));
            }
        }
        let ghost s1 = *self;
        let mut p = self.processes.remove(idx);
        p.status = Status::Finished;
        self.processes.insert(idx, p);
        proof {
            assert(self.processes@ =~= s1.processes@.update(idx as int, self.processes@[idx as int]));
            let n = a.processes@.len();
            assert(forall|i: int|
                0 <= i < n ==> (#[trigger] self.processes@[i]).id == s1.processes@[i].id);
            assert(self.wf_ids());
            // nobody links to the finished process: its own links are empty
            assert forall|i: int|
                0 <= i < n && i != idx as int implies !(#[trigger] s1.processes@[i]).links@.contains(
                pid,
            ) by {
                if s1.processes@[i].links@.contains(pid) {
                    let k = choose|k: int|
                        0 <= k < s1.processes@[i].links@.len() && s1.processes@[i].links@[k] == pid;
                    assert(s1.wf_links_at(i));
                    assert(s1.link_ok(i, k));
                    let j = choose|j: int|
                        0 <= j < n && (#[trigger] s1.processes@[j]).id == pid
                            && s1.processes@[j].links@.contains(s1.processes@[i].id);
                    assert(j == idx as int);
                }
            }
            assert forall|i: int| 0 <= i < n implies #[trigger] self.wf_links_at(i) by {
                assert(s1.wf_links_at(i));
                if i == idx as int {
                } else {
                    assert forall|k: int|
                        0 <= k < self.processes@[i].links@.len() implies #[trigger] self.link_ok(
                        i,
                        k,
                    ) by {
                        assert(s1.link_ok(i, k));
                        let t = s1.processes@[i].links@[k];
                        assert(t != pid);
                        let j = choose|j: int|
                            0 <= j < n && (#[trigger] s1.processes@[j]).id == t
                                && s1.processes@[j].links@.contains(s1.processes@[i].id);
                        assert(self.processes@[j].id == t);
                        assert(self.processes@[j].links@ == s1.processes@[j].links@);
                    }
                }
            }
            assert forall|i: int| 0 <= i < n implies #[trigger] self.wf_tags_at(i) by {
                assert(s1.wf_tags_at(i));
            }
            assert forall|i: int| 0 <= i < n implies #[trigger] self.wf_quotas_at(i) by {
                assert(s1.wf_quotas_at(i));
            }
            assert(self.wf_refs()) by {
                assert forall|i: int|
                    0 <= i < n implies self.has_env((#[trigger] self.processes@[i]).env_id) by {
                    let e = s1.processes@[i].env_id;
                    assert(s1.has_env(e));
                    let j = choose|j: int|
                        0 <= j < s1.envs@.len() && (#[trigger] s1.envs@[j]).id == e;
                    assert(self.envs@[j].id == e);
                }
            }
            assert(self.wf_delayed());
            assert(self.wf_registry());
        }
    }

    /// Spawns a process from a module: the entry point must exist and the
    /// declared parameter kinds must match its signature exactly, or the
    /// spawn fails before any process is created.  With `link_to`, the new
    /// process and the given one are linked in the same atomic step, so no
    /// failure window exists between spawn and link.
    pub fn spawn(
        &mut self,
        module_id: u64,
        function: &str,
        params: &[Param],
        link_to: Option<u64>,
    ) -> (r: Result<u64, SpawnError>)
        requires
            old(self).wf(),
            old(self).has_module(module_id),
            old(self).next_pid < u64::MAX,
            link_to matches Some(c) ==> old(self).is_running(c),
        ensures
            final(self).wf(),
            ({
                let m = old(self).module_st(module_id);
                let f = function.spec_bytes();
                let ei = export_idx(m.exports@, f);
                if ei >= m.exports@.len() {
                    r == Err::<u64, SpawnError>(SpawnError::EntryPointMissing) && *final(self)
                        == *old(self)
                } else if !crate::params::kinds_match(params@, m.exports@[ei].param_kinds@) {
                    r == Err::<u64, SpawnError>(SpawnError::ParamMismatch) && *final(self) == *old(
                        self,
                    )
                } else {
                    r == Ok::<u64, SpawnError>(old(self).next_pid) && spawned(
                        *old(self),
                        *final(self),
                        module_id,
                        old(self).next_pid,
                        link_to,
                    )
                }
            }),
    {
        let ghost a = *old(self);
        proof {
            a.lemma_module_idx(module_id);
        }
        let mi = match self.find_module(module_id) {
            Some(x) => x,
            None => {
                proof {
                    assert(false);
                }
                0
            },
        };
        proof {
            assert(a.module_st(module_id) == a.modules@[mi as int]);
        }
        let fb: &[u8] = function.as_bytes();
        let ghost exports = a.modules@[mi as int].exports@;
        let mut ei: usize = 0;
        let ne = self.modules[mi].exports.len();
        let mut found = false;
        while !found && ei < ne
            invariant
                0 <= ei <= ne,
                *self == a,
                a == *old(self),
                mi < a.modules@.len(),
                exports == a.modules@[mi as int].exports@,
                ne == exports.len(),
                fb@ == function.spec_bytes(),
                forall|k: int| 0 <= k < ei ==> str_bytes((#[trigger] exports[k]).name@) != fb@,
                found ==> (ei as int) < exports.len() && str_bytes(exports[ei as int].name@) == fb@,
            decreases ne - ei + (if found {
                0int
            } else {
                1int
            }),
        {
            let name_bytes: &[u8] = self.modules[mi].exports[ei].name.as_str().as_bytes();
            proof {
                assert(name_bytes@ == str_bytes(exports[ei as int].name@));
            }
            if eq_bytes(name_bytes, fb) {
                found = true;
            } else {
                ei += 1;
            }
        }
        proof {
            lemma_export_idx_char(exports, fb@, ei as int);
        }
        if !found {
            return Err(SpawnError::EntryPointMissing);
        }
        let ok = crate::params::params_match(
            params,
            self.modules[mi].exports[ei].param_kinds.as_slice(),
        );
        if !ok {
            return Err(SpawnError::ParamMismatch);
        }
        let env_id = self.modules[mi].env_id;
        proof {
            assert(a.has_env(env_id));
            a.lemma_env_idx(env_id);
        }
        let eidx = match self.find_env(env_id) {
            Some(x) => x,
            None => {
                proof {
                    assert(false);
                }
                0
            },
        };
        proof {
            assert(a.envs@[eidx as int] == a.env_st(env_id));
        }
        let pid = self.next_pid;
        self.next_pid = pid + 1;
        let mut links: Vec<u64> = Vec::new();
        match link_to {
            Some(c) => {
                links.push(c);
            },
            None => {},
        }
        let fresh = ProcessState {
            id: pid,
            env_id,
            status: Status::Running,
            trapping: false,
            mailbox: Vec::new(),
            links,
            pending: None,
            stale: Vec::new(),
            memory_limit: self.envs[eidx].config.memory_limit,
            compute_budget: self.envs[eidx].config.compute_budget,
            memory_used: 0,
            fuel_used: 0,
        };
        self.processes.push(fresh);
        let ghost s1 = *self;
        match link_to {
            Some(c) => {
                proof {
                    a.lemma_proc_idx(c);
                }
                let ci = match self.find_proc(c) {
                    Some(x) => x,
                    None => {
                        proof {
                            let i0 = a.proc_idx(c);
                            assert(self.processes@[i0].id == c);
                            assert(false);
                        }
                        0
                    },
                };
                proof {
                    assert(ci < a.processes@.len()) by {
                        if ci as int == a.processes@.len() {
                            assert(s1.processes@[ci as int].id == pid);
                            assert(a.processes@[a.proc_idx(c)].id == c);
                            assert(c < a.next_pid);
                        }
                    }
                }
                let mut pc = self.processes.remove(ci);
                pc.links.push(pid);
                self.processes.insert(ci, pc);
                proof {
                    assert(self.processes@ =~= s1.processes@.update(
                        ci as int,
                        self.processes@[ci as int],
                    ));
                }
            },
            None => {},
        }
        proof {
            lemma_spawn_wf(a, s1, *self, module_id, mi as int, eidx as int, pid, link_to);
        }
        Ok(pid)
    }
}

/// A successful spawn preserves the node invariant and satisfies
/// [`spawned`].
#[verifier::rlimit(100)]
proof fn lemma_spawn_wf(
    a: Node,
    s1: Node,
    b: Node,
    module_id: u64,
    mi: int,
    eidx: int,
    pid: u64,
    link_to: Option<u64>,
)
    requires
        a.wf(),
        0 <= mi < a.modules@.len(),
        a.modules@[mi].id == module_id,
        a.has_module(module_id),
        a.module_idx(module_id) == mi,
        0 <= eidx < a.envs@.len(),
        a.envs@[eidx].id == a.modules@[mi].env_id,
        a.env_idx(a.modules@[mi].env_id) == eidx,
        pid == a.next_pid,
        pid < u64::MAX,
        link_to matches Some(c) ==> a.is_running(c),
        s1.processes@.len() == a.processes@.len() + 1,
        forall|i: int| 0 <= i < a.processes@.len() ==> s1.processes@[i] == a.processes@[i],
        fresh_proc(s1.processes@.last(), pid, a.envs@[eidx], link_to),
        s1.now == a.now && s1.next_pid == a.next_pid + 1 && s1.next_tag == a.next_tag
            && s1.next_env_id == a.next_env_id && s1.next_module_id == a.next_module_id
            && s1.next_delay_seq == a.next_delay_seq,
        s1.envs@ == a.envs@ && s1.modules@ == a.modules@ && s1.registry@ == a.registry@
            && s1.this_exports@ == a.this_exports@ && s1.delayed@ == a.delayed@,
        b.now == s1.now && b.next_pid == s1.next_pid && b.next_tag == s1.next_tag && b.next_env_id
            == s1.next_env_id && b.next_module_id == s1.next_module_id && b.next_delay_seq
            == s1.next_delay_seq,
        b.envs@ == s1.envs@ && b.modules@ == s1.modules@ && b.registry@ == s1.registry@
            && b.this_exports@ == s1.this_exports@ && b.delayed@ == s1.delayed@,
        match link_to {
            Some(c) => {
                &&& b.processes@.len() == s1.processes@.len()
                &&& exists|ci: int|
                    0 <= ci < a.processes@.len() && (#[trigger] a.processes@[ci]).id == c
                        && b.processes@ == s1.processes@.update(ci, b.processes@[ci])
                        && link_added(s1.processes@[ci], b.processes@[ci], pid)
            },
            None => b == s1,
        },
    ensures
        b.wf(),
        spawned(a, b, module_id, pid, link_to),
{
    let n = a.processes@.len();
    assert(forall|i: int| 0 <= i < n ==> (#[trigger] a.processes@[i]).id < a.next_pid);
    match link_to {
        Some(c) => {
            let ci = choose|ci: int|
                0 <= ci < a.processes@.len() && (#[trigger] a.processes@[ci]).id == c
                    && b.processes@ == s1.processes@.update(ci, b.processes@[ci]) && link_added(
                    s1.processes@[ci],
                    b.processes@[ci],
                    pid,
                );
            assert(b.processes@.last() == s1.processes@.last());
            assert(forall|i: int| 0 <= i < n && i != ci ==> b.processes@[i] == a.processes@[i]);
            assert(forall|i: int|
                0 <= i < n ==> (#[trigger] b.processes@[i]).id == a.processes@[i].id);
            // the spawner did not link pid before: every old link target is an
            // old process
            assert(!a.processes@[ci].links@.contains(pid)) by {
                if a.processes@[ci].links@.contains(pid) {
                    let k = choose|k: int|
                        0 <= k < a.processes@[ci].links@.len() && a.processes@[ci].links@[k] == pid;
                    assert(a.wf_links_at(ci));
                    assert(a.link_ok(ci, k));
                    let j = choose|j: int|
                        0 <= j < n && (#[trigger] a.processes@[j]).id == pid
                            && a.processes@[j].links@.contains(a.processes@[ci].id);
                    assert(a.processes@[j].id < a.next_pid);
                }
            }
            assert(c != pid) by {
                assert(a.processes@[ci].id < a.next_pid);
            }
            assert(b.wf_ids()) by {
                assert(b.processes@[n as int].id == pid);
            }
            assert forall|i: int| 0 <= i < n + 1 implies #[trigger] b.wf_links_at(i) by {
                if i < n {
                    assert(a.wf_links_at(i));
                    let pa = a.processes@[i];
                    let pb = b.processes@[i];
                    assert(pb.status == pa.status);
                    assert forall|k: int| 0 <= k < pb.links@.len() implies #[trigger] b.link_ok(
                        i,
                        k,
                    ) by {
                        let t = pb.links@[k];
                        if i == ci && k == pa.links@.len() {
                            // the new slot holds pid, backlinked from the
                            // fresh process
                            assert(t == pid);
                            assert(b.processes@[n as int].id == pid);
                            assert(b.processes@[n as int].links@.contains(c)) by {
                                assert(b.processes@[n as int].links@[0] == c);
                            }
                            assert forall|k2: int|
                                0 <= k2 < pb.links@.len() && k2 != k implies pb.links@[k2] != t by {
                                assert(pb.links@[k2] == pa.links@[k2]);
                                assert(pa.links@.contains(pa.links@[k2]));
                            }
                        } else {
                            assert(k < pa.links@.len());
                            assert(pb.links@[k] == pa.links@[k]);
                            assert(a.link_ok(i, k));
                            let j = choose|j: int|
                                0 <= j < n && (#[trigger] a.processes@[j]).id == t
                                    && a.processes@[j].links@.contains(pa.id);
                            assert(b.processes@[j].id == t);
                            assert(b.processes@[j].links@.contains(pa.id)) by {
                                if j == ci {
                                    let m = choose|m: int|
                                        0 <= m < a.processes@[j].links@.len()
                                            && a.processes@[j].links@[m] == pa.id;
                                    assert(b.processes@[j].links@[m] == pa.id);
                                }
                            }
                            assert forall|k2: int|
                                0 <= k2 < pb.links@.len() && k2 != k implies pb.links@[k2] != t by {
                                if i == ci && k2 == pa.links@.len() {
                                    assert(pb.links@[k2] == pid);
                                    assert(pa.links@.contains(t));
                                    let km = choose|km: int|
                                        0 <= km < pa.links@.len() && pa.links@[km] == t;
                                    assert(a.link_ok(i, km));
                                    let j2 = choose|j2: int|
                                        0 <= j2 < n && (#[trigger] a.processes@[j2]).id == t
                                            && a.processes@[j2].links@.contains(pa.id);
                                    assert(t < a.next_pid);
                                }
                            }
                        }
                    }
                } else {
                    // the fresh process: a single link back to the spawner
                    let pb = b.processes@[i];
                    assert(pb.id == pid);
                    assert forall|k: int| 0 <= k < pb.links@.len() implies #[trigger] b.link_ok(
                        i,
                        k,
                    ) by {
                        assert(pb.links@[k] == c);
                        assert(b.processes@[ci].id == c);
                        assert(b.processes@[ci].links@.contains(pid)) by {
                            assert(b.processes@[ci].links@.last() == pid);
                        }
                        assert(pb.links@.len() == 1);
                    }
                }
            }
            assert forall|i: int| 0 <= i < n + 1 implies #[trigger] b.wf_tags_at(i) by {
                if i < n {
                    assert(a.wf_tags_at(i));
                }
            }
            assert forall|i: int| 0 <= i < n + 1 implies #[trigger] b.wf_quotas_at(i) by {
                if i < n {
                    assert(a.wf_quotas_at(i));
                } else {
                    assert(b.processes@[i].memory_used == 0);
                }
            }
            assert(b.wf_refs()) by {
                assert forall|i: int|
                    0 <= i < n + 1 implies b.has_env((#[trigger] b.processes@[i]).env_id) by {
                    let e = b.processes@[i].env_id;
                    if i < n {
                        assert(a.has_env(e));
                    } else {
                        assert(e == a.envs@[eidx].id);
                        assert(a.has_env(e));
                    }
                    let j = choose|j: int| 0 <= j < a.envs@.len() && (#[trigger] a.envs@[j]).id == e;
                    assert(b.envs@[j].id == e);
                }
                assert forall|i: int|
                    0 <= i < b.modules@.len() implies b.has_env((#[trigger] b.modules@[i]).env_id) by {
                    let e = a.modules@[i].env_id;
                    assert(a.has_env(e));
                    let j = choose|j: int| 0 <= j < a.envs@.len() && (#[trigger] a.envs@[j]).id == e;
                    assert(b.envs@[j].id == e);
                }
            }
            assert(b.wf_delayed());
            assert(b.wf_registry());
            assert(a.env_st(a.module_st(module_id).env_id) == a.envs@[eidx]);
        },
        None => {
            assert(b.processes@.last() == s1.processes@.last());
            assert(b.wf_ids()) by {
                assert(b.processes@[n as int].id == pid);
            }
            assert forall|i: int| 0 <= i < n + 1 implies #[trigger] b.wf_links_at(i) by {
                if i < n {
                    assert(a.wf_links_at(i));
                    assert(b.processes@[i] == a.processes@[i]);
                    assert forall|k: int|
                        0 <= k < b.processes@[i].links@.len() implies #[trigger] b.link_ok(i, k) by {
                        assert(a.link_ok(i, k));
                        let t = b.processes@[i].links@[k];
                        let j = choose|j: int|
                            0 <= j < n && (#[trigger] a.processes@[j]).id == t
                                && a.processes@[j].links@.contains(a.processes@[i].id);
                        assert(b.processes@[j].id == t);
                    }
                } else {
                    assert(b.processes@[i].links@.len() == 0);
                }
            }
            assert forall|i: int| 0 <= i < n + 1 implies #[trigger] b.wf_tags_at(i) by {
                if i < n {
                    assert(a.wf_tags_at(i));
                }
            }
            assert forall|i: int| 0 <= i < n + 1 implies #[trigger] b.wf_quotas_at(i) by {
                if i < n {
                    assert(a.wf_quotas_at(i));
                }
            }
            assert(b.wf_refs()) by {
                assert forall|i: int|
                    0 <= i < n + 1 implies b.has_env((#[trigger] b.processes@[i]).env_id) by {
                    let e = b.processes@[i].env_id;
                    if i < n {
                        assert(a.has_env(e));
                    } else {
                        assert(e == a.envs@[eidx].id);
                        assert(a.has_env(e));
                    }
                    let j = choose|j: int| 0 <= j < a.envs@.len() && (#[trigger] a.envs@[j]).id == e;
                    assert(b.envs@[j].id == e);
                }
                assert forall|i: int|
                    0 <= i < b.modules@.len() implies b.has_env((#[trigger] b.modules@[i]).env_id) by {
                    let e = a.modules@[i].env_id;
                    assert(a.has_env(e));
                    let j = choose|j: int| 0 <= j < a.envs@.len() && (#[trigger] a.envs@[j]).id == e;
                    assert(b.envs@[j].id == e);
                }
            }
            assert(b.wf_delayed());
            assert(b.wf_registry());
            assert(a.env_st(a.module_st(module_id).env_id) == a.envs@[eidx]);
        },
    }
}

/// Whether two byte slices hold the same bytes.
fn eq_bytes(x: &[u8], y: &[u8]) -> (r: bool)
    ensures
        r == (x@ == y@),
{
    if x.len() != y.len() {
        proof {
            assert(x@ != y@) by {
                assert(x@.len() != y@.len());
            }
        }
        return false;
    }
    let mut k: usize = 0;
    while k < x.len()
        invariant
            0 <= k <= x@.len(),
            x@.len() == y@.len(),
            forall|m: int| 0 <= m < k ==> x@[m] == y@[m],
        decreases x@.len() - k,
    {
        if x[k] != y[k] {
            proof {
                assert(x@[k as int] != y@[k as int]);
            }
            return false;
        }
        k += 1;
    }
    proof {
        assert(x@ =~= y@);
    }
    true
}


/// The first index of the timer queue whose release time is after `rel`,
/// or the length if none: due entries form a prefix.
pub open spec fn due_pos(d: Seq<Delayed>, rel: u64) -> int
    decreases d.len(),
{
    if d.len() == 0 {
        0
    } else if d[0].release > rel {
        0
    } else {
        1 + due_pos(d.drop_first(), rel)
    }
}

proof fn lemma_due_pos_char(d: Seq<Delayed>, rel: u64, j: int)
    requires
        0 <= j <= d.len(),
        forall|k: int| 0 <= k < j ==> (#[trigger] d[k]).release <= rel,
        j < d.len() ==> d[j].release > rel,
    ensures
        due_pos(d, rel) == j,
    decreases d.len(),
{
    if d.len() > 0 && d[0].release <= rel {
        assert(j > 0);
        lemma_due_pos_char(d.drop_first(), rel, j - 1);
    }
}

/// What a delayed send schedules: a timer entry with release time `rel`,
/// ordered among the other entries by release time, ties broken by age.
pub open spec fn scheduled(
    a: Node,
    b: Node,
    sender: u64,
    receiver: u64,
    payload: Vec<u8>,
    rel: u64,
) -> bool {
    &&& b.now == a.now
    &&& b.next_pid == a.next_pid
    &&& b.next_tag == a.next_tag
    &&& b.next_env_id == a.next_env_id
    &&& b.next_module_id == a.next_module_id
    &&& b.next_delay_seq == a.next_delay_seq + 1
    &&& b.envs@ == a.envs@
    &&& b.modules@ == a.modules@
    &&& b.registry@ == a.registry@
    &&& b.this_exports@ == a.this_exports@
    &&& b.processes@ == a.processes@
    &&& b.delayed@ == a.delayed@.insert(
        due_pos(a.delayed@, rel),
        Delayed { release: rel, seq: a.next_delay_seq, sender, receiver, payload },
    )
}

/// The messages a prefix of the timer queue delivers to one receiver, in
/// queue order.
pub open spec fn deliveries_to(s: Seq<Delayed>, r: u64) -> Seq<Envelope>
    decreases s.len(),
{
    if s.len() == 0 {
        Seq::empty()
    } else {
        (if s[0].receiver == r {
            seq![Envelope::Message { sender: s[0].sender, payload: s[0].payload }]
        } else {
            Seq::empty()
        }) + deliveries_to(s.drop_first(), r)
    }
}

proof fn lemma_deliveries_push(s: Seq<Delayed>, x: Delayed, r: u64)
    ensures
        deliveries_to(s.push(x), r) == deliveries_to(s, r) + (if x.receiver == r {
            seq![Envelope::Message { sender: x.sender, payload: x.payload }]
        } else {
            Seq::<Envelope>::empty()
        }),
    decreases s.len(),
{
    if s.len() == 0 {
        assert(s.push(x)[0] == x);
        assert(s.push(x).drop_first() =~= s);
        assert(deliveries_to(s, r) =~= Seq::<Envelope>::empty());
        assert(deliveries_to(s.push(x), r) =~= (if x.receiver == r {
            seq![Envelope::Message { sender: x.sender, payload: x.payload }]
        } else {
            Seq::<Envelope>::empty()
        }));
        assert(deliveries_to(s, r) + (if x.receiver == r {
            seq![Envelope::Message { sender: x.sender, payload: x.payload }]
        } else {
            Seq::<Envelope>::empty()
        }) =~= deliveries_to(s.push(x), r));
    } else {
        assert(s.push(x)[0] == s[0]);
        assert(s.push(x).drop_first() =~= s.drop_first().push(x));
        lemma_deliveries_push(s.drop_first(), x, r);
        assert((if s[0].receiver == r {
            seq![Envelope::Message { sender: s[0].sender, payload: s[0].payload }]
        } else {
            Seq::<Envelope>::empty()
        }) + (deliveries_to(s.drop_first(), r) + (if x.receiver == r {
            seq![Envelope::Message { sender: x.sender, payload: x.payload }]
        } else {
            Seq::<Envelope>::empty()
        })) =~= ((if s[0].receiver == r {
            seq![Envelope::Message { sender: s[0].sender, payload: s[0].payload }]
        } else {
            Seq::<Envelope>::empty()
        }) + deliveries_to(s.drop_first(), r)) + (if x.receiver == r {
            seq![Envelope::Message { sender: x.sender, payload: x.payload }]
        } else {
            Seq::<Envelope>::empty()
        }));
    }
}

/// The key of a registry entry.
pub open spec fn reg_key_is(e: RegEntry, env_id: u64, name: Seq<u8>, v: Version) -> bool {
    e.env_id == env_id && str_bytes(e.name@) == name && e.version == v
}

/// What registering does: the entry under the key is overwritten if
/// present (last writer wins), appended otherwise.
pub open spec fn registered(
    a: Node,
    b: Node,
    env_id: u64,
    name: Seq<char>,
    v: Version,
    pid: u64,
) -> bool {
    &&& b.now == a.now
    &&& b.next_pid == a.next_pid
    &&& b.next_tag == a.next_tag
    &&& b.next_env_id == a.next_env_id
    &&& b.next_module_id == a.next_module_id
    &&& b.next_delay_seq == a.next_delay_seq
    &&& b.envs@ == a.envs@
    &&& b.modules@ == a.modules@
    &&& b.this_exports@ == a.this_exports@
    &&& b.processes@ == a.processes@
    &&& b.delayed@ == a.delayed@
    &&& if exists|i: int|
        0 <= i < a.registry@.len() && reg_key_is(
            #[trigger] a.registry@[i],
            env_id,
            str_bytes(name),
            v,
        ) {
        let i = choose|i: int|
            0 <= i < a.registry@.len() && reg_key_is(
                #[trigger] a.registry@[i],
                env_id,
                str_bytes(name),
                v,
            );
        &&& b.registry@ == a.registry@.update(i, b.registry@[i])
        &&& reg_key_is(b.registry@[i], env_id, str_bytes(name), v)
        &&& b.registry@[i].pid == pid
    } else {
        &&& b.registry@.len() == a.registry@.len() + 1
        &&& b.registry@.subrange(0, a.registry@.len() as int) == a.registry@
        &&& reg_key_is(b.registry@.last(), env_id, str_bytes(name), v)
        &&& b.registry@.last().pid == pid
        &&& b.registry@.last().name@ == name
    }
}

impl Node {
    /// Schedules a message for delivery to `receiver` once `delay` has
    /// elapsed from now.  Delayed messages are released in order of their
    /// release time, ties broken in scheduling order; a sender without the
    /// messaging capability traps.
    pub fn send_after(&mut self, sender: u64, receiver: u64, payload: Vec<u8>, delay: u64)
        requires
            old(self).wf(),
            old(self).is_running(sender),
            old(self).now + delay <= u64::MAX,
            old(self).next_delay_seq < u64::MAX,
        ensures
            final(self).wf(),
            old(self).can_message(sender) ==> scheduled(
                *old(self),
                *final(self),
                sender,
                receiver,
                payload,
                (old(self).now + delay) as u64,
            ),
            !old(self).can_message(sender) ==> terminated(
                *old(self),
                *final(self),
                sender,
                Fault::NotAllowed,
            ),
    {
        let ghost a = *old(self);
        proof {
            a.lemma_proc_idx(sender);
        }
        let sidx = match self.find_proc(sender) {
            Some(x) => x,
            None => {
                proof {
                    assert(false);
                }
                0
            },
        };
        if !self.check_messaging(sidx) {
            self.terminate(sender, Fault::NotAllowed);
            return ;
        }
        let rel = self.now + delay;
        let mut i: usize = 0;
        let nd = self.delayed.len();
        let mut found = false;
        while !found && i < nd
            invariant
                0 <= i <= nd,
                *self == a,
                a == *old(self),
                nd == a.delayed@.len(),
                forall|k: int| 0 <= k < i ==> (#[trigger] a.delayed@[k]).release <= rel,
                found ==> (i as int) < a.delayed@.len() && a.delayed@[i as int].release > rel,
            decreases nd - i + (if found {
                0int
            } else {
                1int
            }),
        {
            if self.delayed[i].release > rel {
                found = true;
            } else {
                i += 1;
            }
        }
        proof {
            lemma_due_pos_char(a.delayed@, rel, i as int);
        }
        let seq_no = self.next_delay_seq;
        self.next_delay_seq = seq_no + 1;
        let item = Delayed { release: rel, seq: seq_no, sender, receiver, payload };
        self.delayed.insert(i, item);
        proof {
            let d0 = a.delayed@;
            let d1 = self.delayed@;
            let pos = i as int;
            // everything at or past the insertion point releases later
            assert forall|m: int| pos <= m < d0.len() implies (#[trigger] d0[m]).release > rel by {
                if m > pos {
                    assert(delayed_lt(d0[pos], d0[m]));
                }
            }
            assert forall|k1: int, k2: int| 0 <= k1 < k2 < d1.len() implies delayed_lt(
                #[trigger] d1[k1],
                #[trigger] d1[k2],
            ) by {
                let m1 = if k1 < pos {
                    k1
                } else {
                    k1 - 1
                };
                let m2 = if k2 < pos {
                    k2
                } else {
                    k2 - 1
                };
                if k1 == pos {
                    assert(d1[k2] == d0[m2]);
                } else if k2 == pos {
                    assert(d1[k1] == d0[m1]);
                    assert(d0[m1].seq < a.next_delay_seq);
                } else {
                    assert(d1[k1] == d0[m1] && d1[k2] == d0[m2]);
                }
            }
            assert forall|k: int| 0 <= k < d1.len() implies (#[trigger] d1[k]).seq
                < self.next_delay_seq by {
                if k != pos {
                    let m = if k < pos {
                        k
                    } else {
                        k - 1
                    };
                    assert(d1[k] == d0[m]);
                }
            }
            assert forall|ii: int| 0 <= ii < self.processes@.len() implies #[trigger] self
                .wf_tags_at(ii) by {
                assert(a.wf_tags_at(ii));
            }
            assert forall|ii: int| 0 <= ii < self.processes@.len() implies #[trigger] self
                .wf_links_at(ii) by {
                assert(a.wf_links_at(ii));
                assert forall|k: int|
                    0 <= k < self.processes@[ii].links@.len() implies #[trigger] self.link_ok(
                    ii,
                    k,
                ) by {
                    assert(a.link_ok(ii, k));
                }
            }
            assert forall|ii: int| 0 <= ii < self.processes@.len() implies #[trigger] self
                .wf_quotas_at(ii) by {
                assert(a.wf_quotas_at(ii));
            }
            assert(self.wf_refs()) by {
                assert forall|ii: int|
                    0 <= ii < self.processes@.len() implies self.has_env(
                    (#[trigger] self.processes@[ii]).env_id,
                ) by {
                    let e = a.processes@[ii].env_id;
                    assert(a.has_env(e));
                    let j = choose|j: int| 0 <= j < a.envs@.len() && (#[trigger] a.envs@[j]).id == e;
                    assert(self.envs@[j].id == e);
                }
                assert forall|ii: int|
                    0 <= ii < self.modules@.len() implies self.has_env(
                    (#[trigger] self.modules@[ii]).env_id,
                ) by {
                    let e = a.modules@[ii].env_id;
                    assert(a.has_env(e));
                    let j = choose|j: int| 0 <= j < a.envs@.len() && (#[trigger] a.envs@[j]).id == e;
                    assert(self.envs@[j].id == e);
                }
            }
        }
    }
}


impl Node {
    /// Advances the clock by `dt` and releases every delayed message whose
    /// release time has been reached, in release order (ties in scheduling
    /// order).  Released messages join their receivers' mailboxes like
    /// ordinary sends; one whose receiver is gone is dropped.
    pub fn advance_time(&mut self, dt: u64)
        requires
            old(self).wf(),
            old(self).now + dt <= u64::MAX,
        ensures
            final(self).wf(),
            ({
                let a = *old(self);
                let b = *final(self);
                let t = (a.now + dt) as u64;
                let k = due_pos(a.delayed@, t);
                &&& b.now == t
                &&& b.next_pid == a.next_pid
                &&& b.next_tag == a.next_tag
                &&& b.next_env_id == a.next_env_id
                &&& b.next_module_id == a.next_module_id
                &&& b.next_delay_seq == a.next_delay_seq
                &&& b.envs@ == a.envs@
                &&& b.modules@ == a.modules@
                &&& b.registry@ == a.registry@
                &&& b.this_exports@ == a.this_exports@
                &&& b.delayed@ == a.delayed@.skip(k)
                &&& b.processes@.len() == a.processes@.len()
                &&& forall|i: int|
                    0 <= i < a.processes@.len() ==> {
                        let pa = #[trigger] a.processes@[i];
                        let pb = b.processes@[i];
                        if pa.status is Running {
                            proc_eq_except_mailbox(pa, pb) && pb.mailbox@ == pa.mailbox@
                                + deliveries_to(a.delayed@.take(k), pa.id)
                        } else {
                            pb == pa
                        }
                    }
            }),
    {
        let ghost a = *old(self);
        let t = self.now + dt;
        self.now = t;
        let ghost mut c: int = 0;
        proof {
            assert forall|i: int| 0 <= i < self.processes@.len() implies #[trigger] self
                .wf_tags_at(i) by {
                assert(a.wf_tags_at(i));
            }
            assert forall|i: int| 0 <= i < self.processes@.len() implies #[trigger] self
                .wf_links_at(i) by {
                assert(a.wf_links_at(i));
                assert forall|k: int|
                    0 <= k < self.processes@[i].links@.len() implies #[trigger] self.link_ok(i, k) by {
                    assert(a.link_ok(i, k));
                }
            }
            assert forall|i: int| 0 <= i < self.processes@.len() implies #[trigger] self
                .wf_quotas_at(i) by {
                assert(a.wf_quotas_at(i));
            }
            assert(self.wf_refs()) by {
                assert forall|i: int|
                    0 <= i < self.processes@.len() implies self.has_env(
                    (#[trigger] self.processes@[i]).env_id,
                ) by {
                    let e = a.processes@[i].env_id;
                    assert(a.has_env(e));
                    let j = choose|j: int| 0 <= j < a.envs@.len() && (#[trigger] a.envs@[j]).id == e;
                    assert(self.envs@[j].id == e);
                }
                assert forall|i: int|
                    0 <= i < self.modules@.len() implies self.has_env(
                    (#[trigger] self.modules@[i]).env_id,
                ) by {
                    let e = a.modules@[i].env_id;
                    assert(a.has_env(e));
                    let j = choose|j: int| 0 <= j < a.envs@.len() && (#[trigger] a.envs@[j]).id == e;
                    assert(self.envs@[j].id == e);
                }
            }
            assert forall|i: int| 0 <= i < a.processes@.len() implies {
                let pa = #[trigger] a.processes@[i];
                let pb = self.processes@[i];
                if pa.status is Running {
                    proc_eq_except_mailbox(pa, pb) && pb.mailbox@ == pa.mailbox@ + deliveries_to(
                        a.delayed@.take(c),
                        pa.id,
                    )
                } else {
                    pb == pa
                }
            } by {
                assert(a.delayed@.take(0) =~= Seq::<Delayed>::empty());
                assert(a.processes@[i].mailbox@ + Seq::<Envelope>::empty()
                    =~= a.processes@[i].mailbox@);
            }
        }
        while self.delayed.len() > 0 && self.delayed[0].release <= t
            invariant
                self.wf(),
                a.wf(),
                a == *old(self),
                self.now == t,
                t == a.now + dt,
                0 <= c <= a.delayed@.len(),
                self.next_pid == a.next_pid,
                self.next_tag == a.next_tag,
                self.next_env_id == a.next_env_id,
                self.next_module_id == a.next_module_id,
                self.next_delay_seq == a.next_delay_seq,
                self.envs@ == a.envs@,
                self.modules@ == a.modules@,
                self.registry@ == a.registry@,
                self.this_exports@ == a.this_exports@,
                self.delayed@ == a.delayed@.skip(c),
                self.processes@.len() == a.processes@.len(),
                forall|k: int| 0 <= k < c ==> (#[trigger] a.delayed@[k]).release <= t,
                forall|i: int|
                    0 <= i < a.processes@.len() ==> {
                        let pa = #[trigger] a.processes@[i];
                        let pb = self.processes@[i];
                        if pa.status is Running {
                            proc_eq_except_mailbox(pa, pb) && pb.mailbox@ == pa.mailbox@
                                + deliveries_to(a.delayed@.take(c), pa.id)
                        } else {
                            pb == pa
                        }
                    },
            decreases self.delayed@.len(),
        {
            let ghost prev = *self;
            let item = self.delayed.remove(0);
            proof {
                assert(item == a.delayed@[c]);
                assert(a.delayed@[c].release <= t);
                assert(self.delayed@ =~= a.delayed@.skip(c + 1));
                assert forall|k1: int, k2: int|
                    0 <= k1 < k2 < self.delayed@.len() implies delayed_lt(
                    #[trigger] self.delayed@[k1],
                    #[trigger] self.delayed@[k2],
                ) by {
                    assert(self.delayed@[k1] == prev.delayed@[k1 + 1]);
                    assert(self.delayed@[k2] == prev.delayed@[k2 + 1]);
                }
                assert forall|k: int|
                    0 <= k < self.delayed@.len() implies (#[trigger] self.delayed@[k]).seq
                    < self.next_delay_seq by {
                    assert(self.delayed@[k] == prev.delayed@[k + 1]);
                }
                assert forall|i: int| 0 <= i < self.processes@.len() implies #[trigger] self
                    .wf_tags_at(i) by {
                    assert(prev.wf_tags_at(i));
                }
                assert forall|i: int| 0 <= i < self.processes@.len() implies #[trigger] self
                    .wf_links_at(i) by {
                    assert(prev.wf_links_at(i));
                    assert forall|k: int|
                        0 <= k < self.processes@[i].links@.len() implies #[trigger] self.link_ok(
                        i,
                        k,
                    ) by {
                        assert(prev.link_ok(i, k));
                    }
                }
                assert forall|i: int| 0 <= i < self.processes@.len() implies #[trigger] self
                    .wf_quotas_at(i) by {
                    assert(prev.wf_quotas_at(i));
                }
                assert(self.wf_refs()) by {
                    assert forall|i: int|
                        0 <= i < self.processes@.len() implies self.has_env(
                        (#[trigger] self.processes@[i]).env_id,
                    ) by {
                        let e = prev.processes@[i].env_id;
                        assert(prev.has_env(e));
                        let j = choose|j: int|
                            0 <= j < prev.envs@.len() && (#[trigger] prev.envs@[j]).id == e;
                        assert(self.envs@[j].id == e);
                    }
                    assert forall|i: int|
                        0 <= i < self.modules@.len() implies self.has_env(
                        (#[trigger] self.modules@[i]).env_id,
                    ) by {
                        let e = prev.modules@[i].env_id;
                        assert(prev.has_env(e));
                        let j = choose|j: int|
                            0 <= j < prev.envs@.len() && (#[trigger] prev.envs@[j]).id == e;
                        assert(self.envs@[j].id == e);
                    }
                }
                assert(self.wf());
            }
            let ghost mid = *self;
            self.deliver(
                item.receiver,
                Envelope::Message { sender: item.sender, payload: item.payload },
            );
            proof {
                let e = Envelope::Message { sender: item.sender, payload: item.payload };
                assert(sent(mid, *self, item.receiver, e));
                assert forall|i: int| 0 <= i < a.processes@.len() implies {
                    let pa = #[trigger] a.processes@[i];
                    let pb = self.processes@[i];
                    if pa.status is Running {
                        proc_eq_except_mailbox(pa, pb) && pb.mailbox@ == pa.mailbox@
                            + deliveries_to(a.delayed@.take(c + 1), pa.id)
                    } else {
                        pb == pa
                    }
                } by {
                    let pa = a.processes@[i];
                    let pm = mid.processes@[i];
                    assert(a.delayed@.take(c + 1) =~= a.delayed@.take(c).push(a.delayed@[c]));
                    lemma_deliveries_push(a.delayed@.take(c), a.delayed@[c], pa.id);
                    if pa.status is Running {
                        if pm.id == item.receiver && pm.status is Running {
                            assert(pb_eq_push(pm, self.processes@[i], e));
                        } else {
                            assert(self.processes@[i] == pm);
                        }
                        if pa.id == item.receiver {
                            assert(pa.mailbox@ + deliveries_to(a.delayed@.take(c), pa.id) + seq![e]
                                =~= pa.mailbox@ + (deliveries_to(a.delayed@.take(c), pa.id)
                                + seq![e]));
                        } else {
                            assert(deliveries_to(a.delayed@.take(c), pa.id)
                                + Seq::<Envelope>::empty() =~= deliveries_to(
                                a.delayed@.take(c),
                                pa.id,
                            ));
                        }
                    }
                }
                c = c + 1;
            }
        }
        proof {
            assert(self.delayed@ == a.delayed@.skip(c));
            if self.delayed@.len() > 0 {
                assert(a.delayed@[c] == self.delayed@[0]);
            }
            lemma_due_pos_char(a.delayed@, t, c);
        }
    }
}

/// The mailbox of `pb` is that of `pm` with `e` appended, everything else
/// equal.
pub open spec fn pb_eq_push(pm: ProcessState, pb: ProcessState, e: Envelope) -> bool {
    proc_eq_except_mailbox(pm, pb) && pb.mailbox@ == pm.mailbox@.push(e)
}


/// The invariant carries over to a node that differs only in its registry.
proof fn lemma_wf_same_procs(a: Node, b: Node)
    requires
        a.wf(),
        b.processes@ == a.processes@,
        b.envs@ == a.envs@,
        b.modules@ == a.modules@,
        b.delayed@ == a.delayed@,
        b.next_pid == a.next_pid,
        b.next_tag == a.next_tag,
        b.next_env_id == a.next_env_id,
        b.next_module_id == a.next_module_id,
        b.next_delay_seq == a.next_delay_seq,
        b.wf_registry(),
    ensures
        b.wf(),
{
    assert(b.wf_ids());
    assert forall|i: int| 0 <= i < b.processes@.len() implies #[trigger] b.wf_links_at(i) by {
        assert(a.wf_links_at(i));
        assert forall|k: int|
            0 <= k < b.processes@[i].links@.len() implies #[trigger] b.link_ok(i, k) by {
            assert(a.link_ok(i, k));
        }
    }
    assert forall|i: int| 0 <= i < b.processes@.len() implies #[trigger] b.wf_tags_at(i) by {
        assert(a.wf_tags_at(i));
    }
    assert forall|i: int| 0 <= i < b.processes@.len() implies #[trigger] b.wf_quotas_at(i) by {
        assert(a.wf_quotas_at(i));
    }
    assert(b.wf_refs()) by {
        assert forall|i: int|
            0 <= i < b.processes@.len() implies b.has_env((#[trigger] b.processes@[i]).env_id) by {
            let e = a.processes@[i].env_id;
            assert(a.has_env(e));
            let j = choose|j: int| 0 <= j < a.envs@.len() && (#[trigger] a.envs@[j]).id == e;
            assert(b.envs@[j].id == e);
        }
        assert forall|i: int|
            0 <= i < b.modules@.len() implies b.has_env((#[trigger] b.modules@[i]).env_id) by {
            let e = a.modules@[i].env_id;
            assert(a.has_env(e));
            let j = choose|j: int| 0 <= j < a.envs@.len() && (#[trigger] a.envs@[j]).id == e;
            assert(b.envs@[j].id == e);
        }
    }
    assert(b.wf_delayed());
}

impl Node {
    /// Registers a process under a name and an exact semantic version,
    /// within an environment.  A malformed version is rejected; an existing
    /// entry under the same key is overwritten, last writer wins.
    pub fn register(&mut self, env_id: u64, name: &str, version: &str, pid: u64) -> (r: Result<
        (),
        RegistryError,
    >)
        requires
            old(self).wf(),
        ensures
            final(self).wf(),
            !crate::semver::is_version_bytes(version.spec_bytes()) ==> r == Err::<
                (),
                RegistryError,
            >(RegistryError::IncorrectSemver) && *final(self) == *old(self),
            crate::semver::is_version_bytes(version.spec_bytes()) ==> r == Ok::<(), RegistryError>(
                (),
            ) && registered(
                *old(self),
                *final(self),
                env_id,
                name@,
                crate::semver::spec_version_of(version.spec_bytes()),
                pid,
            ),
    {
        let ghost a = *old(self);
        let v = match crate::semver::parse_version(version) {
            Some(v) => v,
            None => {
                return Err(RegistryError::IncorrectSemver);
            },
        };
        proof {
            crate::semver::lemma_version_repr_unique(
                version.spec_bytes(),
                v,
                crate::semver::spec_version_of(version.spec_bytes()),
            );
        }
        let nb: &[u8] = name.as_bytes();
        let mut i: usize = 0;
        let nr = self.registry.len();
        let mut found = false;
        while !found && i < nr
            invariant
                0 <= i <= nr,
                *self == a,
                a == *old(self),
                nr == a.registry@.len(),
                nb@ == str_bytes(name@),
                forall|m: int|
                    0 <= m < i ==> !reg_key_is(#[trigger] a.registry@[m], env_id, nb@, v),
                found ==> (i as int) < a.registry@.len() && reg_key_is(
                    a.registry@[i as int],
                    env_id,
                    nb@,
                    v,
                ),
            decreases nr - i + (if found {
                0int
            } else {
                1int
            }),
        {
            let e_env = self.registry[i].env_id;
            let name_bytes: &[u8] = self.registry[i].name.as_str().as_bytes();
            let same_version = self.registry[i].version == v;
            let hit = e_env == env_id && eq_bytes(name_bytes, nb) && same_version;
            proof {
                assert(name_bytes@ == str_bytes(a.registry@[i as int].name@));
                assert(hit == reg_key_is(a.registry@[i as int], env_id, nb@, v));
            }
            if hit {
                found = true;
            } else {
                i += 1;
            }
        }
        if found {
            let mut e = self.registry.remove(i);
            e.pid = pid;
            self.registry.insert(i, e);
            proof {
                assert(self.registry@ =~= a.registry@.update(i as int, self.registry@[i as int]));
                assert forall|k1: int, k2: int|
                    0 <= k1 < k2 < self.registry@.len() implies !same_reg_key(
                    #[trigger] self.registry@[k1],
                    #[trigger] self.registry@[k2],
                ) by {
                    assert(!same_reg_key(a.registry@[k1], a.registry@[k2]));
                }
                lemma_wf_same_procs(a, *self);
                assert(exists|m: int|
                    0 <= m < a.registry@.len() && reg_key_is(
                        #[trigger] a.registry@[m],
                        env_id,
                        str_bytes(name@),
                        v,
                    )) by {
                    assert(reg_key_is(a.registry@[i as int], env_id, nb@, v));
                }
                let m = choose|m: int|
                    0 <= m < a.registry@.len() && reg_key_is(
                        #[trigger] a.registry@[m],
                        env_id,
                        str_bytes(name@),
                        v,
                    );
                assert(m == i as int) by {
                    if m != i as int {
                        assert(same_reg_key(a.registry@[m], a.registry@[i as int]));
                    }
                }
            }
            return Ok(());
        }
        self.registry.push(RegEntry { env_id, name: name.to_owned(), version: v, pid });
        proof {
            assert forall|k1: int, k2: int|
                0 <= k1 < k2 < self.registry@.len() implies !same_reg_key(
                #[trigger] self.registry@[k1],
                #[trigger] self.registry@[k2],
            ) by {
                if k2 == a.registry@.len() {
                    assert(self.registry@[k1] == a.registry@[k1]);
                    assert(!reg_key_is(a.registry@[k1], env_id, nb@, v));
                } else {
                    assert(!same_reg_key(a.registry@[k1], a.registry@[k2]));
                }
            }
            lemma_wf_same_procs(a, *self);
            assert(!exists|m: int|
                0 <= m < a.registry@.len() && reg_key_is(
                    #[trigger] a.registry@[m],
                    env_id,
                    str_bytes(name@),
                    v,
                ));
            assert(self.registry@.subrange(0, a.registry@.len() as int) =~= a.registry@);
        }
        Ok(())
    }

    /// Removes the entry under a name and exact version.  A malformed
    /// version is rejected; an absent entry is reported as not found.
    pub fn unregister(&mut self, env_id: u64, name: &str, version: &str) -> (r: Result<
        (),
        RegistryError,
    >)
        requires
            old(self).wf(),
        ensures
            final(self).wf(),
            !crate::semver::is_version_bytes(version.spec_bytes()) ==> r == Err::<
                (),
                RegistryError,
            >(RegistryError::IncorrectSemver) && *final(self) == *old(self),
            crate::semver::is_version_bytes(version.spec_bytes()) ==> {
                let v = crate::semver::spec_version_of(version.spec_bytes());
                if exists|m: int|
                    0 <= m < old(self).registry@.len() && reg_key_is(
                        #[trigger] old(self).registry@[m],
                        env_id,
                        name.spec_bytes(),
                        v,
                    ) {
                    let m = choose|m: int|
                        0 <= m < old(self).registry@.len() && reg_key_is(
                            #[trigger] old(self).registry@[m],
                            env_id,
                            name.spec_bytes(),
                            v,
                        );
                    &&& r == Ok::<(), RegistryError>(())
                    &&& final(self).registry@ == old(self).registry@.remove(m)
                    &&& final(self).wf_procs_like(*old(self))
                    &&& final(self).now == old(self).now
                    &&& final(self).next_tag == old(self).next_tag
                    &&& final(self).next_pid == old(self).next_pid
                } else {
                    r == Err::<(), RegistryError>(RegistryError::NotFound) && *final(self) == *old(
                        self,
                    )
                }
            },
    {
        let ghost a = *old(self);
        let v = match crate::semver::parse_version(version) {
            Some(v) => v,
            None => {
                return Err(RegistryError::IncorrectSemver);
            },
        };
        proof {
            crate::semver::lemma_version_repr_unique(
                version.spec_bytes(),
                v,
                crate::semver::spec_version_of(version.spec_bytes()),
            );
        }
        let nb: &[u8] = name.as_bytes();
        let mut i: usize = 0;
        let nr = self.registry.len();
        let mut found = false;
        while !found && i < nr
            invariant
                0 <= i <= nr,
                *self == a,
                a == *old(self),
                nr == a.registry@.len(),
                nb@ == name.spec_bytes(),
                forall|m: int|
                    0 <= m < i ==> !reg_key_is(#[trigger] a.registry@[m], env_id, nb@, v),
                found ==> (i as int) < a.registry@.len() && reg_key_is(
                    a.registry@[i as int],
                    env_id,
                    nb@,
                    v,
                ),
            decreases nr - i + (if found {
                0int
            } else {
                1int
            }),
        {
            let e_env = self.registry[i].env_id;
            let name_bytes: &[u8] = self.registry[i].name.as_str().as_bytes();
            let same_version = self.registry[i].version == v;
            let hit = e_env == env_id && eq_bytes(name_bytes, nb) && same_version;
            proof {
                assert(name_bytes@ == str_bytes(a.registry@[i as int].name@));
                assert(hit == reg_key_is(a.registry@[i as int], env_id, nb@, v));
            }
            if hit {
                found = true;
            } else {
                i += 1;
            }
        }
        if !found {
            return Err(RegistryError::NotFound);
        }
        self.registry.remove(i);
        proof {
            assert forall|k1: int, k2: int|
                0 <= k1 < k2 < self.registry@.len() implies !same_reg_key(
                #[trigger] self.registry@[k1],
                #[trigger] self.registry@[k2],
            ) by {
                let m1 = if k1 < i as int {
                    k1
                } else {
                    k1 + 1
                };
                let m2 = if k2 < i as int {
                    k2
                } else {
                    k2 + 1
                };
                assert(self.registry@[k1] == a.registry@[m1]);
                assert(self.registry@[k2] == a.registry@[m2]);
                assert(!same_reg_key(a.registry@[m1], a.registry@[m2]));
            }
            lemma_wf_same_procs(a, *self);
            let m = choose|m: int|
                0 <= m < a.registry@.len() && reg_key_is(
                    #[trigger] a.registry@[m],
                    env_id,
                    name.spec_bytes(),
                    v,
                );
            assert(m == i as int) by {
                if m != i as int {
                    assert(same_reg_key(a.registry@[m], a.registry@[i as int]));
                }
            }
        }
        Ok(())
    }

    /// The process-table-related parts of the node are unchanged.
    pub open spec fn wf_procs_like(self, a: Node) -> bool {
        &&& self.processes@ == a.processes@
        &&& self.envs@ == a.envs@
        &&& self.modules@ == a.modules@
        &&& self.delayed@ == a.delayed@
    }

    /// Resolves a name and version query within an environment: of the
    /// entries registered under the name, the one with the highest version
    /// satisfying the query wins; none matching yields nothing.  A bare
    /// version string is a caret range; an exact-version lookup needs the
    /// `=` prefix.
    pub fn lookup(&self, env_id: u64, name: &str, query: &str) -> (r: Result<
        Option<u64>,
        RegistryError,
    >)
        requires
            self.wf(),
        ensures
            !crate::semver::is_query_bytes(query.spec_bytes()) ==> r == Err::<
                Option<u64>,
                RegistryError,
            >(RegistryError::IncorrectSemver),
            crate::semver::is_query_bytes(query.spec_bytes()) ==> {
                let q = crate::semver::spec_query_of(query.spec_bytes());
                match r {
                    Ok(opt) => match opt {
                        Option::None => forall|m: int|
                            0 <= m < self.registry@.len() ==> !entry_matches(
                                #[trigger] self.registry@[m],
                                env_id,
                                name.spec_bytes(),
                                q,
                            ),
                        Option::Some(pid) => exists|m: int|
                            0 <= m < self.registry@.len() && entry_matches(
                                #[trigger] self.registry@[m],
                                env_id,
                                name.spec_bytes(),
                                q,
                            ) && self.registry@[m].pid == pid && (forall|j: int|
                                0 <= j < self.registry@.len() && entry_matches(
                                    #[trigger] self.registry@[j],
                                    env_id,
                                    name.spec_bytes(),
                                    q,
                                ) ==> crate::semver::version_le(
                                    self.registry@[j].version,
                                    self.registry@[m].version,
                                )),
                    },
                    Err(_) => false,
                }
            },
    {
        let q = match crate::semver::parse_query(query) {
            Some(q) => q,
            None => {
                return Err(RegistryError::IncorrectSemver);
            },
        };
        proof {
            crate::semver::lemma_query_repr_unique(
                query.spec_bytes(),
                q,
                crate::semver::spec_query_of(query.spec_bytes()),
            );
        }
        let nb: &[u8] = name.as_bytes();
        let mut best: Option<usize> = None;
        let mut i: usize = 0;
        let nr = self.registry.len();
        while i < nr
            invariant
                0 <= i <= nr,
                nr == self.registry@.len(),
                nb@ == name.spec_bytes(),
                crate::semver::query_repr(query.spec_bytes(), q),
                q == crate::semver::spec_query_of(query.spec_bytes()),
                match best {
                    Option::None => forall|m: int|
                        0 <= m < i ==> !entry_matches(#[trigger] self.registry@[m], env_id, nb@, q),
                    Option::Some(bi) => (bi as int) < i && i <= nr && entry_matches(
                        self.registry@[bi as int],
                        env_id,
                        nb@,
                        q,
                    ) && forall|m: int|
                        0 <= m < i && entry_matches(#[trigger] self.registry@[m], env_id, nb@, q)
                            ==> crate::semver::version_le(
                            self.registry@[m].version,
                            self.registry@[bi as int].version,
                        ),
                },
            decreases nr - i,
        {
            let e_env = self.registry[i].env_id;
            let name_bytes: &[u8] = self.registry[i].name.as_str().as_bytes();
            proof {
                assert(name_bytes@ == str_bytes(self.registry@[i as int].name@));
            }
            let m1 = e_env == env_id && eq_bytes(name_bytes, nb);
            let m2 = crate::semver::query_matches_exec(&q, &self.registry[i].version);
            if m1 && m2 {
                match best {
                    None => {
                        best = Some(i);
                    },
                    Some(bi) => {
                        if crate::semver::version_lt_exec(
                            &self.registry[bi].version,
                            &self.registry[i].version,
                        ) {
                            best = Some(i);
                        }
                    },
                }
            }
            i += 1;
        }
        match best {
            None => Ok(None),
            Some(bi) => Ok(Some(self.registry[bi].pid)),
        }
    }
}


impl Node {
    /// Creates an environment from a frozen configuration and returns its
    /// identifier.  The configuration can no longer change: processes
    /// spawned later copy-capture these quotas.
    pub fn create_env(&mut self, config: EnvConfig) -> (r: u64)
        requires
            old(self).wf(),
            old(self).next_env_id < u64::MAX,
        ensures
            final(self).wf(),
            r == old(self).next_env_id,
            final(self).next_env_id == old(self).next_env_id + 1,
            final(self).envs@.len() == old(self).envs@.len() + 1,
            forall|i: int|
                0 <= i < old(self).envs@.len() ==> final(self).envs@[i] == old(self).envs@[i],
            final(self).envs@.last() == (EnvState { id: old(self).next_env_id, config }),
            final(self).has_env(r),
            final(self).processes@ == old(self).processes@,
            final(self).modules@ == old(self).modules@,
            final(self).registry@ == old(self).registry@,
            final(self).delayed@ == old(self).delayed@,
            final(self).this_exports@ == old(self).this_exports@,
            final(self).now == old(self).now,
            final(self).next_pid == old(self).next_pid,
            final(self).next_tag == old(self).next_tag,
            final(self).next_module_id == old(self).next_module_id,
            final(self).next_delay_seq == old(self).next_delay_seq,
    {
        let ghost a = *old(self);
        let id = self.next_env_id;
        self.next_env_id = id + 1;
        self.envs.push(EnvState { id, config });
        proof {
            assert(self.envs@.last().id == id);
            assert(self.wf_ids());
            assert forall|i: int| 0 <= i < self.processes@.len() implies #[trigger] self
                .wf_links_at(i) by {
                assert(a.wf_links_at(i));
                assert forall|k: int|
                    0 <= k < self.processes@[i].links@.len() implies #[trigger] self.link_ok(i, k) by {
                    assert(a.link_ok(i, k));
                }
            }
            assert forall|i: int| 0 <= i < self.processes@.len() implies #[trigger] self
                .wf_tags_at(i) by {
                assert(a.wf_tags_at(i));
            }
            assert forall|i: int| 0 <= i < self.processes@.len() implies #[trigger] self
                .wf_quotas_at(i) by {
                assert(a.wf_quotas_at(i));
            }
            assert(self.wf_refs()) by {
                assert forall|i: int|
                    0 <= i < self.processes@.len() implies self.has_env(
                    (#[trigger] self.processes@[i]).env_id,
                ) by {
                    let e = a.processes@[i].env_id;
                    assert(a.has_env(e));
                    let j = choose|j: int| 0 <= j < a.envs@.len() && (#[trigger] a.envs@[j]).id == e;
                    assert(self.envs@[j].id == e);
                }
                assert forall|i: int|
                    0 <= i < self.modules@.len() implies self.has_env(
                    (#[trigger] self.modules@[i]).env_id,
                ) by {
                    let e = a.modules@[i].env_id;
                    assert(a.has_env(e));
                    let j = choose|j: int| 0 <= j < a.envs@.len() && (#[trigger] a.envs@[j]).id == e;
                    assert(self.envs@[j].id == e);
                }
            }
            assert(self.wf_delayed());
            assert(self.wf_registry());
        }
        id
    }

    /// Adds a compiled module to an environment and returns its identifier.
    /// The exports describe the entry points the module offers; the
    /// compilation itself is the loader's affair, outside this model.
    pub fn create_module(&mut self, env_id: u64, exports: Vec<Export>) -> (r: u64)
        requires
            old(self).wf(),
            old(self).has_env(env_id),
            old(self).next_module_id < u64::MAX,
        ensures
            final(self).wf(),
            r == old(self).next_module_id,
            final(self).next_module_id == old(self).next_module_id + 1,
            final(self).modules@.len() == old(self).modules@.len() + 1,
            forall|i: int|
                0 <= i < old(self).modules@.len() ==> final(self).modules@[i] == old(
                    self,
                ).modules@[i],
            final(self).modules@.last() == (ModuleState {
                id: old(self).next_module_id,
                env_id,
                exports,
            }),
            final(self).has_module(r),
            final(self).module_st(r) == (ModuleState {
                id: old(self).next_module_id,
                env_id,
                exports,
            }),
            final(self).processes@ == old(self).processes@,
            final(self).envs@ == old(self).envs@,
            final(self).registry@ == old(self).registry@,
            final(self).delayed@ == old(self).delayed@,
            final(self).this_exports@ == old(self).this_exports@,
            final(self).now == old(self).now,
            final(self).next_pid == old(self).next_pid,
            final(self).next_tag == old(self).next_tag,
            final(self).next_env_id == old(self).next_env_id,
            final(self).next_delay_seq == old(self).next_delay_seq,
    {
        let ghost a = *old(self);
        let id = self.next_module_id;
        self.next_module_id = id + 1;
        self.modules.push(ModuleState { id, env_id, exports });
        proof {
            assert(self.modules@.last().id == id);
            assert(self.wf_ids());
            assert forall|i: int| 0 <= i < self.processes@.len() implies #[trigger] self
                .wf_links_at(i) by {
                assert(a.wf_links_at(i));
                assert forall|k: int|
                    0 <= k < self.processes@[i].links@.len() implies #[trigger] self.link_ok(i, k) by {
                    assert(a.link_ok(i, k));
                }
            }
            assert forall|i: int| 0 <= i < self.processes@.len() implies #[trigger] self
                .wf_tags_at(i) by {
                assert(a.wf_tags_at(i));
            }
            assert forall|i: int| 0 <= i < self.processes@.len() implies #[trigger] self
                .wf_quotas_at(i) by {
                assert(a.wf_quotas_at(i));
            }
            assert(self.wf_refs()) by {
                assert forall|i: int|
                    0 <= i < self.processes@.len() implies self.has_env(
                    (#[trigger] self.processes@[i]).env_id,
                ) by {
                    let e = a.processes@[i].env_id;
                    assert(a.has_env(e));
                    let j = choose|j: int| 0 <= j < a.envs@.len() && (#[trigger] a.envs@[j]).id == e;
                    assert(self.envs@[j].id == e);
                }
                assert forall|i: int|
                    0 <= i < self.modules@.len() implies self.has_env(
                    (#[trigger] self.modules@[i]).env_id,
                ) by {
                    let e = self.modules@[i].env_id;
                    if i < a.modules@.len() {
                        assert(e == a.modules@[i].env_id);
                        assert(a.has_env(e));
                    } else {
                        assert(e == env_id);
                        assert(a.has_env(e));
                    }
                    let j = choose|j: int| 0 <= j < a.envs@.len() && (#[trigger] a.envs@[j]).id == e;
                    assert(self.envs@[j].id == e);
                }
            }
            assert(self.wf_delayed());
            assert(self.wf_registry());
            self.lemma_module_idx(id);
        }
        id
    }
}

/// Equal but for the trapping flag.
pub open spec fn proc_core_eq_except_trapping(pa: ProcessState, pb: ProcessState) -> bool {
    &&& pb.id == pa.id
    &&& pb.env_id == pa.env_id
    &&& pb.status == pa.status
    &&& pb.links@ == pa.links@
    &&& pb.mailbox@ == pa.mailbox@
    &&& pb.pending == pa.pending
    &&& pb.stale@ == pa.stale@
    &&& pb.memory_limit == pa.memory_limit
    &&& pb.compute_budget == pa.compute_budget
    &&& pb.memory_used == pa.memory_used
    &&& pb.fuel_used == pa.fuel_used
}

/// Equal but for the memory accounting.
pub open spec fn proc_core_eq_except_memory(pa: ProcessState, pb: ProcessState) -> bool {
    &&& pb.id == pa.id
    &&& pb.env_id == pa.env_id
    &&& pb.status == pa.status
    &&& pb.trapping == pa.trapping
    &&& pb.links@ == pa.links@
    &&& pb.mailbox@ == pa.mailbox@
    &&& pb.pending == pa.pending
    &&& pb.stale@ == pa.stale@
    &&& pb.memory_limit == pa.memory_limit
    &&& pb.compute_budget == pa.compute_budget
    &&& pb.fuel_used == pa.fuel_used
}

/// Equal but for the fuel accounting.
pub open spec fn proc_core_eq_except_fuel(pa: ProcessState, pb: ProcessState) -> bool {
    &&& pb.id == pa.id
    &&& pb.env_id == pa.env_id
    &&& pb.status == pa.status
    &&& pb.trapping == pa.trapping
    &&& pb.links@ == pa.links@
    &&& pb.mailbox@ == pa.mailbox@
    &&& pb.pending == pa.pending
    &&& pb.stale@ == pa.stale@
    &&& pb.memory_limit == pa.memory_limit
    &&& pb.compute_budget == pa.compute_budget
    &&& pb.memory_used == pa.memory_used
}

fn find_in(v: &Vec<u64>, x: u64) -> (r: Option<usize>)
    ensures
        match r {
            Some(i) => i < v@.len() && v@[i as int] == x,
            None => !v@.contains(x),
        },
{
    let mut i: usize = 0;
    while i < v.len()
        invariant
            0 <= i <= v@.len(),
            forall|m: int| 0 <= m < i ==> v@[m] != x,
        decreases v@.len() - i,
    {
        if v[i] == x {
            return Some(i);
        }
        i += 1;
    }
    None
}

} // verus!
