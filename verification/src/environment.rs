//! Environment configuration and the user-facing handle types.
//!
//! An [`EnvConfig`] collects per-process quotas and capability grants.  It is
//! frozen when an [`Environment`] is created from it: every process spawned
//! from a module of that environment copy-captures the quotas, so later
//! configurations never affect running processes.

use vstd::prelude::*;
use vstd::string::StringExecFns;
use vstd::string::StringSliceAdditionalSpecFns;
use crate::node::{Envelope, Fault, Node, RegistryError, SpawnError};
use crate::params::{Param, ParamKind};

verus! {

/// The byte sequence of a capability token or namespace string.
pub open spec fn str_bytes(s: Seq<char>) -> Seq<u8> {
    vstd::utf8::encode_utf8(s)
}

/// Whether a set of allowed namespace strings admits a host-function token:
/// some allowed namespace is a byte prefix of the token.  The empty string is
/// a prefix of every token, so allowing `""` allows everything.
pub open spec fn ns_allowed(namespaces: Seq<String>, token: Seq<u8>) -> bool {
    exists|i: int|
        0 <= i < namespaces.len() && str_bytes(#[trigger] namespaces[i]@).is_prefix_of(token)
}

/// Whether `a` is a prefix of `b`.
fn is_prefix_bytes(a: &[u8], b: &[u8]) -> (r: bool)
    ensures
        r == a@.is_prefix_of(b@),
{
    if a.len() > b.len() {
        assert(!a@.is_prefix_of(b@));
        return false;
    }
    let mut k: usize = 0;
    while k < a.len()
        invariant
            0 <= k <= a@.len() <= b@.len(),
            forall|m: int| 0 <= m < k ==> a@[m] == b@[m],
        decreases a@.len() - k,
    {
        if a[k] != b[k] {
            assert(!a@.is_prefix_of(b@)) by {
                assert(a@[k as int] != b@[k as int]);
            }
            return false;
        }
        k += 1;
    }
    proof {
        assert(a@.is_prefix_of(b@)) by {
            assert(a@ =~= b@.subrange(0, a@.len() as int));
        }
    }
    true
}

/// Whether one of the allowed namespace strings is a prefix of the token.
pub fn namespace_allowed(namespaces: &Vec<String>, token: &str) -> (r: bool)
    ensures
        r == ns_allowed(namespaces@, token.spec_bytes()),
{
    let token_bytes: &[u8] = token.as_bytes();
    let mut i: usize = 0;
    while i < namespaces.len()
        invariant
            0 <= i <= namespaces@.len(),
            token_bytes@ == token.spec_bytes(),
            forall|m: int|
                0 <= m < i ==> !str_bytes(#[trigger] namespaces@[m]@).is_prefix_of(
                    token.spec_bytes(),
                ),
        decreases namespaces@.len() - i,
    {
        let ns_str: &str = namespaces[i].as_str();
        let ns_bytes: &[u8] = ns_str.as_bytes();
        proof {
            assert(ns_str@ == namespaces@[i as int]@);
            assert(ns_bytes@ == ns_str.spec_bytes());
            assert(ns_str.spec_bytes() == str_bytes(namespaces@[i as int]@));
        }
        let pref = is_prefix_bytes(ns_bytes, token_bytes);
        proof {
            assert(pref == str_bytes(namespaces@[i as int]@).is_prefix_of(token.spec_bytes()));
        }
        if pref {
            return true;
        }
        i += 1;
    }
    false
}

/// Per-process quotas and capability grants for an environment.
///
/// `memory_limit` is in bytes and applies to each process separately;
/// `compute_budget` is in fuel units, `0` meaning unlimited.  A process
/// spawned under the environment may only call host functions whose name has
/// one of `namespaces` as a prefix.
pub struct EnvConfig {
    pub memory_limit: u64,
    pub compute_budget: u64,
    pub namespaces: Vec<String>,
    pub preopened_dirs: Vec<String>,
    pub plugins: Vec<Vec<u8>>,
}

/// The error a configuration call can report.
#[derive(Clone, Copy, PartialEq, Eq, Structural, Debug)]
pub enum ConfigError {
    PermissionDenied,
}

impl EnvConfig {
    /// A fresh configuration with the given quotas and nothing allowed.
    ///
    /// * `max_memory` — bytes of memory each spawned process may use.
    /// * `max_fuel` — compute budget per process; `None` means unlimited.
    pub fn new(max_memory: u64, max_fuel: Option<u64>) -> (r: EnvConfig)
        ensures
            r.memory_limit == max_memory,
            r.compute_budget == (match max_fuel {
                Some(f) => f,
                None => 0,
            }),
            r.namespaces@.len() == 0,
            r.preopened_dirs@.len() == 0,
            r.plugins@.len() == 0,
    {
        let fuel: u64 = match max_fuel {
            Some(f) => f,
            None => 0,
        };
        EnvConfig {
            memory_limit: max_memory,
            compute_budget: fuel,
            namespaces: Vec::new(),
            preopened_dirs: Vec::new(),
            plugins: Vec::new(),
        }
    }

    /// Allow a host-function namespace.  A namespace is an exact function
    /// name or a prefix of one; the empty string allows everything.
    pub fn allow_namespace(&mut self, namespace: &str)
        ensures
            final(self).namespaces@.len() == old(self).namespaces@.len() + 1,
            final(self).namespaces@.last()@ == namespace@,
            forall|i: int|
                0 <= i < old(self).namespaces@.len() ==> final(self).namespaces@[i] == old(
                    self,
                ).namespaces@[i],
            final(self).memory_limit == old(self).memory_limit,
            final(self).compute_budget == old(self).compute_budget,
            final(self).preopened_dirs == old(self).preopened_dirs,
            final(self).plugins == old(self).plugins,
    {
        self.namespaces.push(namespace.to_owned());
    }

    /// Allow the WASI host namespace.
    pub fn allow_wasi(&mut self)
        ensures
            final(self).namespaces@.len() == old(self).namespaces@.len() + 1,
            final(self).namespaces@.last()@ == "wasi_snapshot_preview1::"@,
            forall|i: int|
                0 <= i < old(self).namespaces@.len() ==> final(self).namespaces@[i] == old(
                    self,
                ).namespaces@[i],
            final(self).memory_limit == old(self).memory_limit,
            final(self).compute_budget == old(self).compute_budget,
            final(self).preopened_dirs == old(self).preopened_dirs,
            final(self).plugins == old(self).plugins,
    {
        self.allow_namespace("wasi_snapshot_preview1::");
    }

    /// Allow the networking host namespace.
    pub fn allow_networking(&mut self)
        ensures
            final(self).namespaces@.len() == old(self).namespaces@.len() + 1,
            final(self).namespaces@.last()@ == "lunatic::networking::"@,
            forall|i: int|
                0 <= i < old(self).namespaces@.len() ==> final(self).namespaces@[i] == old(
                    self,
                ).namespaces@[i],
            final(self).memory_limit == old(self).memory_limit,
            final(self).compute_budget == old(self).compute_budget,
            final(self).preopened_dirs == old(self).preopened_dirs,
            final(self).plugins == old(self).plugins,
    {
        self.allow_namespace("lunatic::networking::");
    }

    /// Allow the process-management host namespace.
    pub fn allow_processes(&mut self)
        ensures
            final(self).namespaces@.len() == old(self).namespaces@.len() + 1,
            final(self).namespaces@.last()@ == "lunatic::process::"@,
            forall|i: int|
                0 <= i < old(self).namespaces@.len() ==> final(self).namespaces@[i] == old(
                    self,
                ).namespaces@[i],
            final(self).memory_limit == old(self).memory_limit,
            final(self).compute_budget == old(self).compute_budget,
            final(self).preopened_dirs == old(self).preopened_dirs,
            final(self).plugins == old(self).plugins,
    {
        self.allow_namespace("lunatic::process::");
    }

    /// Allow the messaging host namespace.
    pub fn allow_messaging(&mut self)
        ensures
            final(self).namespaces@.len() == old(self).namespaces@.len() + 1,
            final(self).namespaces@.last()@ == "lunatic::message::"@,
            forall|i: int|
                0 <= i < old(self).namespaces@.len() ==> final(self).namespaces@[i] == old(
                    self,
                ).namespaces@[i],
            final(self).memory_limit == old(self).memory_limit,
            final(self).compute_budget == old(self).compute_budget,
            final(self).preopened_dirs == old(self).preopened_dirs,
            final(self).plugins == old(self).plugins,
    {
        self.allow_namespace("lunatic::message::");
    }

    /// Grant the configured processes access to a host directory.  The model
    /// carries no ambient filesystem, so every grant the builder asks for is
    /// recorded and succeeds; denial is the hosting filesystem's affair.
    pub fn preopen_dir(&mut self, dir: &str) -> (r: Result<(), ConfigError>)
        ensures
            r is Ok,
            final(self).preopened_dirs@.len() == old(self).preopened_dirs@.len() + 1,
            final(self).preopened_dirs@.last()@ == dir@,
            forall|i: int|
                0 <= i < old(self).preopened_dirs@.len() ==> final(self).preopened_dirs@[i] == old(
                    self,
                ).preopened_dirs@[i],
            final(self).memory_limit == old(self).memory_limit,
            final(self).compute_budget == old(self).compute_budget,
            final(self).namespaces == old(self).namespaces,
            final(self).plugins == old(self).plugins,
    {
        self.preopened_dirs.push(dir.to_owned());
        Ok(())
    }

    /// Record a plugin blob for the configuration.  The blob is opaque to
    /// the model and is kept as given; whether the loader accepts it as a
    /// plugin is the excluded loader's answer, which never surfaces here —
    /// were it wanted, it would have to come in as a plain value.
    pub fn add_plugin(&mut self, plugin: &[u8]) -> (r: Result<(), ConfigError>)
        ensures
            r is Ok,
            final(self).plugins@.len() == old(self).plugins@.len() + 1,
            final(self).plugins@.last()@ == plugin@,
            forall|i: int|
                0 <= i < old(self).plugins@.len() ==> final(self).plugins@[i] == old(
                    self,
                ).plugins@[i],
            final(self).memory_limit == old(self).memory_limit,
            final(self).compute_budget == old(self).compute_budget,
            final(self).namespaces == old(self).namespaces,
            final(self).preopened_dirs == old(self).preopened_dirs,
    {
        let mut blob: Vec<u8> = Vec::new();
        let mut k: usize = 0;
        while k < plugin.len()
            invariant
                0 <= k <= plugin@.len(),
                blob@ == plugin@.subrange(0, k as int),
            decreases plugin@.len() - k,
        {
            blob.push(plugin[k]);
            proof {
                assert(plugin@.subrange(0, k as int + 1) =~= plugin@.subrange(0, k as int).push(
                    plugin@[k as int],
                ));
            }
            k += 1;
        }
        proof {
            assert(plugin@.subrange(0, plugin@.len() as int) =~= plugin@);
        }
        self.plugins.push(blob);
        Ok(())
    }
}

impl Default for EnvConfig {
    /// The unrestricted default: every namespace allowed, four gigabytes of
    /// memory per process, no compute cap.
    fn default() -> (r: EnvConfig)
        ensures
            r.memory_limit == 0x1_0000_0000,
            r.compute_budget == 0,
            r.namespaces@.len() == 1,
            r.namespaces@[0]@ == Seq::<char>::empty(),
            r.preopened_dirs@.len() == 0,
            r.plugins@.len() == 0,
    {
        let mut config = EnvConfig::new(0x1_0000_0000, None);
        config.allow_namespace("");
        proof {
            reveal_strlit("");
        }
        config
    }
}

/// A location-transparent reference to a process.  Many handles may alias
/// one running actor; the identifier can travel inside message payloads, so
/// third parties can learn of a process without the registry.
#[derive(Clone, Copy, PartialEq, Eq, Structural, Debug)]
pub struct Process {
    pub id: u64,
}

impl Process {
    /// Wraps a raw process identifier, as when one arrives in a message.
    pub fn from_id(id: u64) -> (r: Process)
        ensures
            r.id == id,
    {
        Process { id }
    }

    /// The raw identifier.
    pub fn id(&self) -> (r: u64)
        ensures
            r == self.id,
    {
        self.id
    }

    /// Sends a fire-and-forget message to this process from `sender`; see
    /// [`Node::send`].
    pub fn send(&self, node: &mut Node, sender: u64, payload: Vec<u8>)
        requires
            old(node).wf(),
            old(node).is_running(sender),
        ensures
            final(node).wf(),
            old(node).can_message(sender) ==> crate::node::sent(
                *old(node),
                *final(node),
                self.id,
                Envelope::Message { sender, payload },
            ),
            !old(node).can_message(sender) ==> crate::node::terminated(
                *old(node),
                *final(node),
                sender,
                Fault::NotAllowed,
            ),
    {
        node.send(sender, self.id, payload)
    }

    /// Schedules a message for this process after `delay`; see
    /// [`Node::send_after`].
    pub fn send_after(&self, node: &mut Node, sender: u64, payload: Vec<u8>, delay: u64)
        requires
            old(node).wf(),
            old(node).is_running(sender),
            old(node).now + delay <= u64::MAX,
            old(node).next_delay_seq < u64::MAX,
        ensures
            final(node).wf(),
            old(node).can_message(sender) ==> crate::node::scheduled(
                *old(node),
                *final(node),
                sender,
                self.id,
                payload,
                (old(node).now + delay) as u64,
            ),
            !old(node).can_message(sender) ==> crate::node::terminated(
                *old(node),
                *final(node),
                sender,
                Fault::NotAllowed,
            ),
    {
        node.send_after(sender, self.id, payload, delay)
    }

    /// Begins a blocking request against this process with no deadline; the
    /// caller waits until the correlated reply arrives.  See
    /// [`Node::request`].
    pub fn request(&self, node: &mut Node, caller: u64, payload: Vec<u8>) -> (tag: u64)
        requires
            old(node).wf(),
            old(node).is_running(caller),
            old(node).proc(caller).pending is None,
            old(node).next_tag < u64::MAX,
        ensures
            final(node).wf(),
            old(node).can_message(caller) ==> crate::node::requested(
                *old(node),
                *final(node),
                caller,
                self.id,
                payload,
                tag,
                None,
            ),
            !old(node).can_message(caller) ==> crate::node::terminated(
                *old(node),
                *final(node),
                caller,
                Fault::NotAllowed,
            ),
    {
        node.request(caller, self.id, payload, None)
    }

    /// Begins a blocking request against this process that gives up after
    /// `d` time units: once the deadline passes with no correlated reply,
    /// polling reports a timeout and a late reply is drained, never
    /// misdelivered.  See [`Node::request`] and [`Node::poll_reply`].
    pub fn request_timeout(&self, node: &mut Node, caller: u64, payload: Vec<u8>, d: u64) -> (tag:
        u64)
        requires
            old(node).wf(),
            old(node).is_running(caller),
            old(node).proc(caller).pending is None,
            old(node).next_tag < u64::MAX,
            old(node).now + d <= u64::MAX,
        ensures
            final(node).wf(),
            old(node).can_message(caller) ==> crate::node::requested(
                *old(node),
                *final(node),
                caller,
                self.id,
                payload,
                tag,
                Some((old(node).now + d) as u64),
            ),
            !old(node).can_message(caller) ==> crate::node::terminated(
                *old(node),
                *final(node),
                caller,
                Fault::NotAllowed,
            ),
    {
        node.request(caller, self.id, payload, Some(d))
    }

    /// Links this process with `caller`; see [`Node::link`].
    pub fn link(&self, node: &mut Node, caller: u64)
        requires
            old(node).wf(),
            old(node).is_running(caller),
            old(node).is_running(self.id),
            caller != self.id,
        ensures
            final(node).wf(),
            final(node).linked(caller, self.id),
            old(node).linked(caller, self.id) ==> *final(node) == *old(node),
            !old(node).linked(caller, self.id) ==> {
                &&& crate::node::unchanged_meta(*old(node), *final(node))
                &&& final(node).delayed@ == old(node).delayed@
                &&& final(node).processes@.len() == old(node).processes@.len()
                &&& forall|i: int|
                    0 <= i < old(node).processes@.len() ==> {
                        let pa = #[trigger] old(node).processes@[i];
                        let pb = final(node).processes@[i];
                        if pa.id == caller {
                            crate::node::link_added(pa, pb, self.id)
                        } else if pa.id == self.id {
                            crate::node::link_added(pa, pb, caller)
                        } else {
                            pb == pa
                        }
                    }
            },
    {
        node.link(caller, self.id)
    }

    /// Removes the link between this process and `caller`, in both
    /// directions; see [`Node::unlink`].
    pub fn unlink(&self, node: &mut Node, caller: u64)
        requires
            old(node).wf(),
        ensures
            final(node).wf(),
            crate::node::unchanged_meta(*old(node), *final(node)),
            final(node).delayed@ == old(node).delayed@,
            final(node).processes@.len() == old(node).processes@.len(),
            caller != self.id ==> forall|i: int|
                0 <= i < old(node).processes@.len() ==> {
                    let pa = #[trigger] old(node).processes@[i];
                    let pb = final(node).processes@[i];
                    if pa.id == caller {
                        crate::node::link_removed(pa, pb, self.id)
                    } else if pa.id == self.id {
                        crate::node::link_removed(pa, pb, caller)
                    } else {
                        pb == pa
                    }
                },
            caller == self.id ==> *final(node) == *old(node),
    {
        node.unlink(caller, self.id)
    }
}

/// A compile-time tag for an actor kind, giving type-qualified registry
/// names their prefix.
pub trait IntoProcessName {
    /// The declared type name, as a specification-level value.
    spec fn spec_name() -> Seq<char>;

    /// The declared type name.
    fn name() -> (s: String)
        ensures
            s@ == Self::spec_name(),
    ;
}

impl IntoProcessName for Process {
    open spec fn spec_name() -> Seq<char> {
        "Process"@
    }

    fn name() -> (s: String) {
        String::from_str("Process")
    }
}

/// A handle to a created environment.  The configuration was frozen when
/// the environment was made; the handle also caches the module of the
/// currently running code once it has been added.
pub struct Environment {
    pub id: u64,
    pub this_module: Option<ThisModule>,
}

/// A handle to a compiled module bound to an environment.
#[derive(Clone, Copy, PartialEq, Eq, Structural, Debug)]
pub struct Module {
    pub id: u64,
}

/// The module of the currently running code, usable to spawn entry points
/// of this very program into another environment.
#[derive(Clone, Copy, PartialEq, Eq, Structural, Debug)]
pub struct ThisModule {
    pub id: u64,
}

/// What spawning through an environment's own module does: exactly a
/// [`crate::node::spawned`] step, except that the node may first have
/// gained the this-module entry.
pub open spec fn env_spawned(a: Node, b: Node, env_id: u64, pid: u64, link_to: Option<u64>) -> bool {
    &&& pid == a.next_pid
    &&& b.next_pid == a.next_pid + 1
    &&& b.now == a.now
    &&& b.next_tag == a.next_tag
    &&& b.next_env_id == a.next_env_id
    &&& b.next_delay_seq == a.next_delay_seq
    &&& b.envs@ == a.envs@
    &&& b.registry@ == a.registry@
    &&& b.this_exports@ == a.this_exports@
    &&& b.delayed@ == a.delayed@
    &&& b.processes@.len() == a.processes@.len() + 1
    &&& crate::node::fresh_proc(b.processes@.last(), pid, a.env_st(env_id), link_to)
    &&& forall|i: int|
        0 <= i < a.processes@.len() ==> {
            let pa = #[trigger] a.processes@[i];
            let pb = b.processes@[i];
            if link_to matches Some(c) && pa.id == c {
                crate::node::link_added(pa, pb, pid)
            } else {
                pb == pa
            }
        }
}

/// The frame of a spawn that failed after the this-module may have been
/// added: no process, registry, timer or environment state changed.
pub open spec fn env_unchanged(a: Node, b: Node) -> bool {
    &&& b.now == a.now
    &&& b.next_pid == a.next_pid
    &&& b.next_tag == a.next_tag
    &&& b.next_env_id == a.next_env_id
    &&& b.next_delay_seq == a.next_delay_seq
    &&& b.envs@ == a.envs@
    &&& b.registry@ == a.registry@
    &&& b.this_exports@ == a.this_exports@
    &&& b.delayed@ == a.delayed@
    &&& b.processes@ == a.processes@
}

impl Environment {
    /// Whether the handle refers to real node state.
    pub open spec fn wf_in(self, node: Node) -> bool {
        &&& node.has_env(self.id)
        &&& match self.this_module {
            Some(m) => node.has_module(m.id) && node.module_st(m.id).env_id == self.id
                && crate::node::exports_like(node.module_st(m.id).exports@, node.this_exports@),
            None => true,
        }
    }

    /// Wraps a raw environment identifier.
    pub fn from(id: u64) -> (r: Environment)
        ensures
            r.id == id,
            r.this_module is None,
    {
        Environment { id, this_module: None }
    }

    /// Creates an environment from a configuration, freezing it: the
    /// quotas and grants apply to every process spawned under it later,
    /// and to nothing already running.
    pub fn new(node: &mut Node, config: EnvConfig) -> (r: Environment)
        requires
            old(node).wf(),
            old(node).next_env_id < u64::MAX,
        ensures
            final(node).wf(),
            r.wf_in(*final(node)),
            r.this_module is None,
            r.id == old(node).next_env_id,
            final(node).envs@.len() == old(node).envs@.len() + 1,
            forall|i: int|
                0 <= i < old(node).envs@.len() ==> final(node).envs@[i] == old(node).envs@[i],
            final(node).envs@.last() == (crate::node::EnvState { id: r.id, config }),
            final(node).processes@ == old(node).processes@,
            final(node).modules@ == old(node).modules@,
            final(node).registry@ == old(node).registry@,
            final(node).delayed@ == old(node).delayed@,
            final(node).now == old(node).now,
    {
        let id = node.create_env(config);
        proof {
            node.lemma_env_idx(id);
        }
        Environment { id, this_module: None }
    }

    /// Adds a compiled module to this environment.
    pub fn add_module(&mut self, node: &mut Node, exports: Vec<crate::node::Export>) -> (r: Module)
        requires
            old(node).wf(),
            old(self).wf_in(*old(node)),
            old(node).next_module_id < u64::MAX,
        ensures
            final(node).wf(),
            final(self).wf_in(*final(node)),
            *final(self) == *old(self),
            final(node).has_module(r.id),
            final(node).module_st(r.id) == (crate::node::ModuleState {
                id: r.id,
                env_id: old(self).id,
                exports,
            }),
            final(node).processes@ == old(node).processes@,
            final(node).envs@ == old(node).envs@,
            final(node).registry@ == old(node).registry@,
            final(node).delayed@ == old(node).delayed@,
            final(node).this_exports@ == old(node).this_exports@,
    {
        let ghost a = *old(node);
        let id = node.create_module(self.id, exports);
        proof {
            match self.this_module {
                Some(m) => {
                    a.lemma_module_idx(m.id);
                    node.lemma_module_idx(m.id);
                    assert(node.modules@[a.module_idx(m.id)] == a.modules@[a.module_idx(m.id)]);
                },
                None => {},
            }
        }
        Module { id }
    }

    /// Ensures the currently running module is part of this environment,
    /// adding it on first use.
    fn add_this_module(&mut self, node: &mut Node) -> (r: ThisModule)
        requires
            old(node).wf(),
            old(self).wf_in(*old(node)),
            old(node).next_module_id < u64::MAX,
        ensures
            final(node).wf(),
            final(self).wf_in(*final(node)),
            final(self).id == old(self).id,
            final(self).this_module == Some(r),
            old(self).this_module matches Some(m) ==> r == m && *final(self) == *old(self)
                && *final(node) == *old(node),
            final(node).has_module(r.id),
            final(node).module_st(r.id).env_id == old(self).id,
            crate::node::exports_like(
                final(node).module_st(r.id).exports@,
                final(node).this_exports@,
            ),
            env_unchanged(*old(node), *final(node)),
            final(node).next_tag == old(node).next_tag,
            final(node).modules@.len() >= old(node).modules@.len(),
    {
        match self.this_module {
            Some(m) => {
                proof {
                    old(node).lemma_module_idx(m.id);
                }
                m
            },
            None => {
                let ghost a = *old(node);
                let exports = copy_exports(&node.this_exports);
                let id = node.create_module(self.id, exports);
                let m = ThisModule { id };
                self.this_module = Some(m);
                m
            },
        }
    }

    /// Spawns an entry point of the currently running module into this
    /// environment; the module is added on first use.  The entry point must
    /// exist and the parameter kinds must match exactly, or the spawn fails
    /// with no process created.
    pub fn spawn(&mut self, node: &mut Node, function: &str, params: &[Param]) -> (r: Result<
        Process,
        SpawnError,
    >)
        requires
            old(node).wf(),
            old(self).wf_in(*old(node)),
            old(node).next_module_id < u64::MAX,
            old(node).next_pid < u64::MAX,
        ensures
            final(node).wf(),
            final(self).wf_in(*final(node)),
            final(self).id == old(self).id,
            // the running module is cached: an existing handle is kept, a
            // missing one is added before the spawn is attempted
            old(self).this_module is Some ==> final(self).this_module == old(self).this_module,
            final(self).this_module is Some,
            ({
                let f = function.spec_bytes();
                let exports = old(node).this_exports@;
                let ei = crate::node::export_idx(exports, f);
                if ei >= exports.len() {
                    r == Err::<Process, SpawnError>(SpawnError::EntryPointMissing) && env_unchanged(
                        *old(node),
                        *final(node),
                    )
                } else if !crate::params::kinds_match(params@, exports[ei].param_kinds@) {
                    r == Err::<Process, SpawnError>(SpawnError::ParamMismatch) && env_unchanged(
                        *old(node),
                        *final(node),
                    )
                } else {
                    r == Ok::<Process, SpawnError>(Process { id: old(node).next_pid })
                        && env_spawned(
                        *old(node),
                        *final(node),
                        old(self).id,
                        old(node).next_pid,
                        None,
                    )
                }
            }),
    {
        let ghost a = *old(node);
        let m = self.add_this_module(node);
        let ghost s1 = *node;
        let r = node.spawn(m.id, function, params, None);
        proof {
            let f = function.spec_bytes();
            let me = s1.module_st(m.id).exports@;
            let te = a.this_exports@;
            crate::node::lemma_export_idx_like(me, te, f);
            crate::node::lemma_export_idx_bounds(te, f);
            let ei = crate::node::export_idx(te, f);
            if 0 <= ei && ei < te.len() {
                assert(me[ei].param_kinds@ == te[ei].param_kinds@);
            }
            assert(a.has_env(old(self).id));
            assert(s1.has_env(old(self).id)) by {
                let j = choose|j: int|
                    0 <= j < a.envs@.len() && (#[trigger] a.envs@[j]).id == old(self).id;
                assert(s1.envs@[j].id == old(self).id);
            }
            a.lemma_env_idx(old(self).id);
            s1.lemma_env_idx(old(self).id);
            assert(s1.env_st(old(self).id) == a.env_st(old(self).id)) by {
                assert(a.envs@[a.env_idx(old(self).id)].id == old(self).id);
                assert(s1.envs@[a.env_idx(old(self).id)].id == old(self).id);
            }
            assert(crate::node::exports_like(me, te));
            assert(me.len() == te.len());
            assert(crate::node::export_idx(me, f) == ei);
            if 0 <= ei && ei < te.len() {
                assert(crate::params::kinds_match(params@, me[ei].param_kinds@)
                    == crate::params::kinds_match(params@, te[ei].param_kinds@));
            }
            assert(s1.module_st(m.id).env_id == old(self).id);
        }
        match r {
            Ok(pid) => Ok(Process::from_id(pid)),
            Err(e) => Err(e),
        }
    }

    /// Like [`Environment::spawn`], and additionally links the new process
    /// to `caller` in the same atomic step: there is no window in which the
    /// new process could die unobserved.
    pub fn spawn_link(&mut self, node: &mut Node, caller: u64, function: &str, params: &[Param]) -> (r:
        Result<Process, SpawnError>)
        requires
            old(node).wf(),
            old(self).wf_in(*old(node)),
            old(node).next_module_id < u64::MAX,
            old(node).next_pid < u64::MAX,
            old(node).is_running(caller),
        ensures
            final(node).wf(),
            final(self).wf_in(*final(node)),
            final(self).id == old(self).id,
            // the running module is cached: an existing handle is kept, a
            // missing one is added before the spawn is attempted
            old(self).this_module is Some ==> final(self).this_module == old(self).this_module,
            final(self).this_module is Some,
            ({
                let f = function.spec_bytes();
                let exports = old(node).this_exports@;
                let ei = crate::node::export_idx(exports, f);
                if ei >= exports.len() {
                    r == Err::<Process, SpawnError>(SpawnError::EntryPointMissing) && env_unchanged(
                        *old(node),
                        *final(node),
                    )
                } else if !crate::params::kinds_match(params@, exports[ei].param_kinds@) {
                    r == Err::<Process, SpawnError>(SpawnError::ParamMismatch) && env_unchanged(
                        *old(node),
                        *final(node),
                    )
                } else {
                    r == Ok::<Process, SpawnError>(Process { id: old(node).next_pid })
                        && env_spawned(
                        *old(node),
                        *final(node),
                        old(self).id,
                        old(node).next_pid,
                        Some(caller),
                    )
                }
            }),
    {
        let ghost a = *old(node);
        let m = self.add_this_module(node);
        let ghost s1 = *node;
        proof {
            assert(s1.is_running(caller)) by {
                a.lemma_proc_idx(caller);
                s1.lemma_proc_idx(caller);
            }
        }
        let r = node.spawn(m.id, function, params, Some(caller));
        proof {
            let f = function.spec_bytes();
            let me = s1.module_st(m.id).exports@;
            let te = a.this_exports@;
            crate::node::lemma_export_idx_like(me, te, f);
            crate::node::lemma_export_idx_bounds(te, f);
            let ei = crate::node::export_idx(te, f);
            if 0 <= ei && ei < te.len() {
                assert(me[ei].param_kinds@ == te[ei].param_kinds@);
            }
            assert(a.has_env(old(self).id));
            assert(s1.has_env(old(self).id)) by {
                let j = choose|j: int|
                    0 <= j < a.envs@.len() && (#[trigger] a.envs@[j]).id == old(self).id;
                assert(s1.envs@[j].id == old(self).id);
            }
            a.lemma_env_idx(old(self).id);
            s1.lemma_env_idx(old(self).id);
            assert(s1.env_st(old(self).id) == a.env_st(old(self).id)) by {
                assert(a.envs@[a.env_idx(old(self).id)].id == old(self).id);
                assert(s1.envs@[a.env_idx(old(self).id)].id == old(self).id);
            }
            assert(crate::node::exports_like(me, te));
            assert(me.len() == te.len());
            assert(crate::node::export_idx(me, f) == ei);
            if 0 <= ei && ei < te.len() {
                assert(crate::params::kinds_match(params@, me[ei].param_kinds@)
                    == crate::params::kinds_match(params@, te[ei].param_kinds@));
            }
            assert(s1.module_st(m.id).env_id == old(self).id);
        }
        match r {
            Ok(pid) => Ok(Process::from_id(pid)),
            Err(e) => Err(e),
        }
    }

    /// Registers a process under a name and exact version in this
    /// environment; see [`Node::register`].
    pub fn register_name(&self, node: &mut Node, name: &str, version: &str, process: Process) -> (r:
        Result<(), RegistryError>)
        requires
            old(node).wf(),
        ensures
            final(node).wf(),
            !crate::semver::is_version_bytes(version.spec_bytes()) ==> r == Err::<
                (),
                RegistryError,
            >(RegistryError::IncorrectSemver) && *final(node) == *old(node),
            crate::semver::is_version_bytes(version.spec_bytes()) ==> r == Ok::<(), RegistryError>(
                (),
            ) && crate::node::registered(
                *old(node),
                *final(node),
                self.id,
                name@,
                crate::semver::spec_version_of(version.spec_bytes()),
                process.id,
            ),
    {
        node.register(self.id, name, version, process.id)
    }

    /// Unregisters the process under a name and exact version; see
    /// [`Node::unregister`].
    pub fn unregister_name(&self, node: &mut Node, name: &str, version: &str) -> (r: Result<
        (),
        RegistryError,
    >)
        requires
            old(node).wf(),
        ensures
            final(node).wf(),
            !crate::semver::is_version_bytes(version.spec_bytes()) ==> r == Err::<
                (),
                RegistryError,
            >(RegistryError::IncorrectSemver) && *final(node) == *old(node),
            crate::semver::is_version_bytes(version.spec_bytes()) ==> {
                let v = crate::semver::spec_version_of(version.spec_bytes());
                if exists|m: int|
                    0 <= m < old(node).registry@.len() && crate::node::reg_key_is(
                        #[trigger] old(node).registry@[m],
                        self.id,
                        name.spec_bytes(),
                        v,
                    ) {
                    let m = choose|m: int|
                        0 <= m < old(node).registry@.len() && crate::node::reg_key_is(
                            #[trigger] old(node).registry@[m],
                            self.id,
                            name.spec_bytes(),
                            v,
                        );
                    &&& r == Ok::<(), RegistryError>(())
                    &&& final(node).registry@ == old(node).registry@.remove(m)
                    &&& final(node).wf_procs_like(*old(node))
                    &&& final(node).now == old(node).now
                    &&& final(node).next_tag == old(node).next_tag
                    &&& final(node).next_pid == old(node).next_pid
                } else {
                    r == Err::<(), RegistryError>(RegistryError::NotFound) && *final(node) == *old(
                        node,
                    )
                }
            },
    {
        node.unregister(self.id, name, version)
    }

    /// Registers a process under a type-qualified name: the declared type
    /// name, a `+`, and the given name.  A lookup through
    /// [`lookup_type`] with the same type tag is then guaranteed to agree
    /// about the declared type.
    pub fn register_type<T: IntoProcessName>(
        &self,
        node: &mut Node,
        name: &str,
        version: &str,
        process: Process,
    ) -> (r: Result<(), RegistryError>)
        requires
            old(node).wf(),
        ensures
            final(node).wf(),
            !crate::semver::is_version_bytes(version.spec_bytes()) ==> r == Err::<
                (),
                RegistryError,
            >(RegistryError::IncorrectSemver) && *final(node) == *old(node),
            crate::semver::is_version_bytes(version.spec_bytes()) ==> r == Ok::<(), RegistryError>(
                (),
            ) && crate::node::registered(
                *old(node),
                *final(node),
                self.id,
                T::spec_name() + "+"@ + name@,
                crate::semver::spec_version_of(version.spec_bytes()),
                process.id,
            ),
    {
        let full = T::name().concat("+").concat(name);
        proof {
            assert(full@ == T::spec_name() + "+"@ + name@);
        }
        node.register(self.id, full.as_str(), version, process.id)
    }
}

/// Copies an export table, element by element.
fn copy_exports(src: &Vec<crate::node::Export>) -> (r: Vec<crate::node::Export>)
    ensures
        r@.len() == src@.len(),
        forall|i: int|
            0 <= i < src@.len() ==> (#[trigger] r@[i]).name@ == src@[i].name@ && r@[i].param_kinds@
                == src@[i].param_kinds@,
{
    let mut r: Vec<crate::node::Export> = Vec::new();
    let mut i: usize = 0;
    while i < src.len()
        invariant
            0 <= i <= src@.len(),
            r@.len() == i,
            forall|m: int|
                0 <= m < i ==> (#[trigger] r@[m]).name@ == src@[m].name@ && r@[m].param_kinds@
                    == src@[m].param_kinds@,
        decreases src@.len() - i,
    {
        let name = src[i].name.clone();
        let mut kinds: Vec<ParamKind> = Vec::new();
        let mut k: usize = 0;
        while k < src[i].param_kinds.len()
            invariant
                0 <= i < src@.len(),
                0 <= k <= src@[i as int].param_kinds@.len(),
                kinds@ == src@[i as int].param_kinds@.subrange(0, k as int),
            decreases src@[i as int].param_kinds@.len() - k,
        {
            kinds.push(src[i].param_kinds[k]);
            proof {
                assert(src@[i as int].param_kinds@.subrange(0, k as int + 1) =~= src@[
                    i as int].param_kinds@.subrange(0, k as int).push(
                    src@[i as int].param_kinds@[k as int],
                ));
            }
            k += 1;
        }
        proof {
            assert(kinds@ =~= src@[i as int].param_kinds@);
        }
        r.push(crate::node::Export { name, param_kinds: kinds });
        i += 1;
    }
    r
}

/// Looks a process up by plain name and version query in the given
/// environment.  A bare version string is a caret range, as version
/// requirements usually are: to find exactly one registered version, query
/// with an `=` prefix (`=1.0.0`).  The returned handle is typed only by the
/// caller's assertion; for a checked alternative see [`lookup_type`].
pub fn lookup_name(node: &Node, env: &Environment, name: &str, query: &str) -> (r: Result<
    Option<Process>,
    RegistryError,
>)
    requires
        node.wf(),
    ensures
        !crate::semver::is_query_bytes(query.spec_bytes()) ==> r == Err::<
            Option<Process>,
            RegistryError,
        >(RegistryError::IncorrectSemver),
        crate::semver::is_query_bytes(query.spec_bytes()) ==> {
            let q = crate::semver::spec_query_of(query.spec_bytes());
            match r {
                Ok(opt) => match opt {
                    Option::None => forall|m: int|
                        0 <= m < node.registry@.len() ==> !crate::node::entry_matches(
                            #[trigger] node.registry@[m],
                            env.id,
                            name.spec_bytes(),
                            q,
                        ),
                    Option::Some(p) => exists|m: int|
                        0 <= m < node.registry@.len() && crate::node::entry_matches(
                            #[trigger] node.registry@[m],
                            env.id,
                            name.spec_bytes(),
                            q,
                        ) && node.registry@[m].pid == p.id && (forall|j: int|
                            0 <= j < node.registry@.len() && crate::node::entry_matches(
                                #[trigger] node.registry@[j],
                                env.id,
                                name.spec_bytes(),
                                q,
                            ) ==> crate::semver::version_le(
                                node.registry@[j].version,
                                node.registry@[m].version,
                            )),
                },
                Err(_) => false,
            }
        },
{
    match node.lookup(env.id, name, query) {
        Ok(Some(pid)) => Ok(Some(Process::from_id(pid))),
        Ok(None) => Ok(None),
        Err(e) => Err(e),
    }
}

/// Looks a process up under a type-qualified name: only registrations made
/// through [`Environment::register_type`] with the same type tag can
/// match, so the declared type always agrees with the call site's.
pub fn lookup_type<T: IntoProcessName>(node: &Node, env: &Environment, name: &str, query: &str) -> (r:
    Result<Option<Process>, RegistryError>)
    requires
        node.wf(),
    ensures
        !crate::semver::is_query_bytes(query.spec_bytes()) ==> r == Err::<
            Option<Process>,
            RegistryError,
        >(RegistryError::IncorrectSemver),
        crate::semver::is_query_bytes(query.spec_bytes()) ==> {
            let q = crate::semver::spec_query_of(query.spec_bytes());
            let qualified = str_bytes(T::spec_name() + "+"@ + name@);
            match r {
                Ok(opt) => match opt {
                    Option::None => forall|m: int|
                        0 <= m < node.registry@.len() ==> !crate::node::entry_matches(
                            #[trigger] node.registry@[m],
                            env.id,
                            qualified,
                            q,
                        ),
                    Option::Some(p) => exists|m: int|
                        0 <= m < node.registry@.len() && crate::node::entry_matches(
                            #[trigger] node.registry@[m],
                            env.id,
                            qualified,
                            q,
                        ) && node.registry@[m].pid == p.id && (forall|j: int|
                            0 <= j < node.registry@.len() && crate::node::entry_matches(
                                #[trigger] node.registry@[j],
                                env.id,
                                qualified,
                                q,
                            ) ==> crate::semver::version_le(
                                node.registry@[j].version,
                                node.registry@[m].version,
                            )),
                },
                Err(_) => false,
            }
        },
{
    let full = T::name().concat("+").concat(name);
    proof {
        assert(full@ == T::spec_name() + "+"@ + name@);
    }
    match node.lookup(env.id, full.as_str(), query) {
        Ok(Some(pid)) => Ok(Some(Process::from_id(pid))),
        Ok(None) => Ok(None),
        Err(e) => Err(e),
    }
}

impl Module {
    /// Spawns the named entry point from this module, checking its
    /// existence and the parameter kinds before any process is created;
    /// see [`Node::spawn`].
    pub fn spawn(&self, node: &mut Node, function: &str, params: &[Param]) -> (r: Result<
        Process,
        SpawnError,
    >)
        requires
            old(node).wf(),
            old(node).has_module(self.id),
            old(node).next_pid < u64::MAX,
        ensures
            final(node).wf(),
            ({
                let m = old(node).module_st(self.id);
                let f = function.spec_bytes();
                let ei = crate::node::export_idx(m.exports@, f);
                if ei >= m.exports@.len() {
                    r == Err::<Process, SpawnError>(SpawnError::EntryPointMissing) && *final(node)
                        == *old(node)
                } else if !crate::params::kinds_match(params@, m.exports@[ei].param_kinds@) {
                    r == Err::<Process, SpawnError>(SpawnError::ParamMismatch) && *final(node)
                        == *old(node)
                } else {
                    r == Ok::<Process, SpawnError>(Process { id: old(node).next_pid })
                        && crate::node::spawned(
                        *old(node),
                        *final(node),
                        self.id,
                        old(node).next_pid,
                        None,
                    )
                }
            }),
    {
        match node.spawn(self.id, function, params, None) {
            Ok(pid) => Ok(Process::from_id(pid)),
            Err(e) => Err(e),
        }
    }

    /// Spawns the named entry point and links it to `caller` atomically;
    /// see [`Node::spawn`].
    pub fn spawn_link(&self, node: &mut Node, caller: u64, function: &str, params: &[Param]) -> (r:
        Result<Process, SpawnError>)
        requires
            old(node).wf(),
            old(node).has_module(self.id),
            old(node).next_pid < u64::MAX,
            old(node).is_running(caller),
        ensures
            final(node).wf(),
            ({
                let m = old(node).module_st(self.id);
                let f = function.spec_bytes();
                let ei = crate::node::export_idx(m.exports@, f);
                if ei >= m.exports@.len() {
                    r == Err::<Process, SpawnError>(SpawnError::EntryPointMissing) && *final(node)
                        == *old(node)
                } else if !crate::params::kinds_match(params@, m.exports@[ei].param_kinds@) {
                    r == Err::<Process, SpawnError>(SpawnError::ParamMismatch) && *final(node)
                        == *old(node)
                } else {
                    r == Ok::<Process, SpawnError>(Process { id: old(node).next_pid })
                        && crate::node::spawned(
                        *old(node),
                        *final(node),
                        self.id,
                        old(node).next_pid,
                        Some(caller),
                    )
                }
            }),
    {
        match node.spawn(self.id, function, params, Some(caller)) {
            Ok(pid) => Ok(Process::from_id(pid)),
            Err(e) => Err(e),
        }
    }
}

impl ThisModule {
    /// Spawns an entry point of the currently running module; see
    /// [`Node::spawn`].
    pub fn spawn(&self, node: &mut Node, function: &str, params: &[Param]) -> (r: Result<
        Process,
        SpawnError,
    >)
        requires
            old(node).wf(),
            old(node).has_module(self.id),
            old(node).next_pid < u64::MAX,
        ensures
            final(node).wf(),
            ({
                let m = old(node).module_st(self.id);
                let f = function.spec_bytes();
                let ei = crate::node::export_idx(m.exports@, f);
                if ei >= m.exports@.len() {
                    r == Err::<Process, SpawnError>(SpawnError::EntryPointMissing) && *final(node)
                        == *old(node)
                } else if !crate::params::kinds_match(params@, m.exports@[ei].param_kinds@) {
                    r == Err::<Process, SpawnError>(SpawnError::ParamMismatch) && *final(node)
                        == *old(node)
                } else {
                    r == Ok::<Process, SpawnError>(Process { id: old(node).next_pid })
                        && crate::node::spawned(
                        *old(node),
                        *final(node),
                        self.id,
                        old(node).next_pid,
                        None,
                    )
                }
            }),
    {
        match node.spawn(self.id, function, params, None) {
            Ok(pid) => Ok(Process::from_id(pid)),
            Err(e) => Err(e),
        }
    }

    /// Spawns an entry point of the currently running module and links it
    /// to `caller` atomically; see [`Node::spawn`].
    pub fn spawn_link(&self, node: &mut Node, caller: u64, function: &str, params: &[Param]) -> (r:
        Result<Process, SpawnError>)
        requires
            old(node).wf(),
            old(node).has_module(self.id),
            old(node).next_pid < u64::MAX,
            old(node).is_running(caller),
        ensures
            final(node).wf(),
            ({
                let m = old(node).module_st(self.id);
                let f = function.spec_bytes();
                let ei = crate::node::export_idx(m.exports@, f);
                if ei >= m.exports@.len() {
                    r == Err::<Process, SpawnError>(SpawnError::EntryPointMissing) && *final(node)
                        == *old(node)
                } else if !crate::params::kinds_match(params@, m.exports@[ei].param_kinds@) {
                    r == Err::<Process, SpawnError>(SpawnError::ParamMismatch) && *final(node)
                        == *old(node)
                } else {
                    r == Ok::<Process, SpawnError>(Process { id: old(node).next_pid })
                        && crate::node::spawned(
                        *old(node),
                        *final(node),
                        self.id,
                        old(node).next_pid,
                        Some(caller),
                    )
                }
            }),
    {
        match node.spawn(self.id, function, params, Some(caller)) {
            Ok(pid) => Ok(Process::from_id(pid)),
            Err(e) => Err(e),
        }
    }
}

} // verus!
