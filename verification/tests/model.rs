use lunatic::environment::{EnvConfig, Environment, Module, Process};
use lunatic::node::{Envelope, Export, Fault, Node, RequestOutcome, SpawnError, Status};

fn plain_export(name: &str) -> Export {
    Export { name: name.to_owned(), param_kinds: Vec::new() }
}

fn setup() -> (Node, Environment, Module) {
    let mut node = Node::new(Vec::new());
    let cfg = EnvConfig::default();
    let mut env = Environment::new(&mut node, cfg);
    let module = env.add_module(&mut node, vec![plain_export("worker")]);
    (node, env, module)
}

fn spawn_worker(node: &mut Node, module: &Module) -> Process {
    module.spawn(node, "worker", &[]).unwrap()
}

fn status_of(node: &Node, pid: u64) -> Status {
    for p in node.processes.iter() {
        if p.id == pid {
            return p.status;
        }
    }
    panic!("no such process");
}

#[test]
fn spawn_returns_live_handles_with_fresh_ids() {
    let (mut node, _env, module) = setup();
    let a = spawn_worker(&mut node, &module);
    let b = spawn_worker(&mut node, &module);
    assert_ne!(a.id(), b.id());
    assert!(matches!(status_of(&node, a.id()), Status::Running));
    assert!(matches!(status_of(&node, b.id()), Status::Running));
}

#[test]
fn linked_trapping_peer_gets_exactly_one_exit_notification() {
    let (mut node, _env, module) = setup();
    let a = spawn_worker(&mut node, &module);
    let sup = spawn_worker(&mut node, &module);
    node.set_trapping(sup.id(), true);
    node.link(a.id(), sup.id());
    node.terminate(a.id(), Fault::Failure);
    assert!(matches!(status_of(&node, a.id()), Status::Failed(Fault::Failure)));
    // the supervisor survives and finds exactly one exit notification
    assert!(matches!(status_of(&node, sup.id()), Status::Running));
    match node.dispatch_next(sup.id()) {
        Some(Envelope::Exit { from, fault }) => {
            assert_eq!(from, a.id());
            assert!(matches!(fault, Fault::Failure));
        },
        other => panic!("expected an exit notification, got {:?}", other),
    }
    assert!(node.dispatch_next(sup.id()).is_none());
}

#[test]
fn linked_non_trapping_peer_dies_with_same_cause() {
    let (mut node, _env, module) = setup();
    let a = spawn_worker(&mut node, &module);
    let b = spawn_worker(&mut node, &module);
    node.link(a.id(), b.id());
    node.terminate(a.id(), Fault::Killed);
    assert!(matches!(status_of(&node, b.id()), Status::Failed(Fault::Killed)));
}

#[test]
fn spawn_link_is_atomic_with_the_spawn() {
    let (mut node, _env, module) = setup();
    let parent = spawn_worker(&mut node, &module);
    let child = module.spawn_link(&mut node, parent.id(), "worker", &[]).unwrap();
    node.set_trapping(parent.id(), true);
    node.terminate(child.id(), Fault::Failure);
    match node.dispatch_next(parent.id()) {
        Some(Envelope::Exit { from, .. }) => assert_eq!(from, child.id()),
        other => panic!("expected an exit notification, got {:?}", other),
    }
}

#[test]
fn unlinked_peer_observes_nothing() {
    let (mut node, _env, module) = setup();
    let a = spawn_worker(&mut node, &module);
    let b = spawn_worker(&mut node, &module);
    node.set_trapping(b.id(), true);
    node.link(a.id(), b.id());
    node.unlink(a.id(), b.id());
    node.terminate(a.id(), Fault::Failure);
    assert!(matches!(status_of(&node, b.id()), Status::Running));
    assert!(node.dispatch_next(b.id()).is_none());
}

#[test]
fn normal_return_does_not_propagate_over_links() {
    let (mut node, _env, module) = setup();
    let a = spawn_worker(&mut node, &module);
    let b = spawn_worker(&mut node, &module);
    node.set_trapping(b.id(), true);
    node.link(a.id(), b.id());
    node.finish(a.id());
    assert!(matches!(status_of(&node, a.id()), Status::Finished));
    assert!(matches!(status_of(&node, b.id()), Status::Running));
    assert!(node.dispatch_next(b.id()).is_none());
}

#[test]
fn mailbox_is_fifo_per_sender_under_interleaving() {
    let (mut node, _env, module) = setup();
    let s = spawn_worker(&mut node, &module);
    let t = spawn_worker(&mut node, &module);
    let r = spawn_worker(&mut node, &module);
    r.send(&mut node, s.id(), vec![1]);
    r.send(&mut node, t.id(), vec![9]);
    r.send(&mut node, s.id(), vec![2]);
    let mut seen: Vec<(u64, Vec<u8>)> = Vec::new();
    while let Some(e) = node.dispatch_next(r.id()) {
        match e {
            Envelope::Message { sender, payload } => seen.push((sender, payload)),
            other => panic!("unexpected envelope {:?}", other),
        }
    }
    assert_eq!(
        seen,
        vec![(s.id(), vec![1]), (t.id(), vec![9]), (s.id(), vec![2])],
    );
}

#[test]
fn request_reply_round_trip() {
    let (mut node, _env, module) = setup();
    let client = spawn_worker(&mut node, &module);
    let server = spawn_worker(&mut node, &module);
    let tag = server.request(&mut node, client.id(), vec![42]);
    // the server dispatches the request and produces the single reply
    match node.dispatch_next(server.id()) {
        Some(Envelope::Request { sender, tag: got, payload }) => {
            assert_eq!(sender, client.id());
            assert_eq!(got, tag);
            assert_eq!(payload, vec![42]);
            node.reply(server.id(), sender, got, vec![43]);
        },
        other => panic!("expected the request, got {:?}", other),
    }
    match node.poll_reply(client.id()) {
        RequestOutcome::Ready(payload) => assert_eq!(payload, vec![43]),
        other => panic!("expected the reply, got {:?}", other),
    }
}

#[test]
fn request_timeout_returns_timeout_and_drains_late_reply() {
    let (mut node, _env, module) = setup();
    let client = spawn_worker(&mut node, &module);
    let server = spawn_worker(&mut node, &module);
    let tag = server.request_timeout(&mut node, client.id(), vec![7], 5);
    assert!(matches!(node.poll_reply(client.id()), RequestOutcome::Waiting));
    node.advance_time(5);
    assert!(matches!(node.poll_reply(client.id()), RequestOutcome::Timeout));
    // a late reply arrives; it must be drained, never dispatched
    node.reply(server.id(), client.id(), tag, vec![8]);
    assert!(node.dispatch_next(client.id()).is_none());
    // and it cannot be misdelivered to a fresh request: tags differ
    let tag2 = server.request_timeout(&mut node, client.id(), vec![9], 5);
    assert_ne!(tag, tag2);
    assert!(matches!(node.poll_reply(client.id()), RequestOutcome::Waiting));
}

#[test]
fn mutual_blocking_requests_time_out_while_timer_keeps_ticking() {
    let (mut node, _env, module) = setup();
    let a = spawn_worker(&mut node, &module);
    let b = spawn_worker(&mut node, &module);
    node.link(a.id(), b.id());
    // each request handler blocking-requests the other: both loops stall
    let _ta = b.request_timeout(&mut node, a.id(), vec![1], 5);
    let _tb = a.request_timeout(&mut node, b.id(), vec![2], 5);
    // an unrelated timer process re-arms its own tick while the pair stalls
    let timer = spawn_worker(&mut node, &module);
    timer.send_after(&mut node, timer.id(), vec![1], 3);
    node.advance_time(3);
    match node.dispatch_next(timer.id()) {
        Some(Envelope::Message { sender, .. }) => assert_eq!(sender, timer.id()),
        other => panic!("the timer should keep ticking, got {:?}", other),
    }
    timer.send_after(&mut node, timer.id(), vec![2], 3);
    // after ~5 time units the blocked request returns a timeout instead of
    // hanging forever
    node.advance_time(2);
    assert!(matches!(node.poll_reply(a.id()), RequestOutcome::Timeout));
    assert!(matches!(node.poll_reply(b.id()), RequestOutcome::Timeout));
    // the pair is stalled, not dead; the deadlock was scoped to it
    assert!(matches!(status_of(&node, a.id()), Status::Running));
    node.advance_time(1);
    assert!(node.dispatch_next(timer.id()).is_some());
}

#[test]
fn delayed_sends_release_in_release_time_order() {
    let (mut node, _env, module) = setup();
    let s = spawn_worker(&mut node, &module);
    let r = spawn_worker(&mut node, &module);
    r.send_after(&mut node, s.id(), vec![2], 20);
    r.send_after(&mut node, s.id(), vec![1], 10);
    node.advance_time(25);
    let mut seen: Vec<Vec<u8>> = Vec::new();
    while let Some(e) = node.dispatch_next(r.id()) {
        match e {
            Envelope::Message { payload, .. } => seen.push(payload),
            other => panic!("unexpected envelope {:?}", other),
        }
    }
    assert_eq!(seen, vec![vec![1], vec![2]]);
}

#[test]
fn delayed_send_not_released_before_its_time() {
    let (mut node, _env, module) = setup();
    let s = spawn_worker(&mut node, &module);
    let r = spawn_worker(&mut node, &module);
    r.send_after(&mut node, s.id(), vec![1], 10);
    node.advance_time(9);
    assert!(node.dispatch_next(r.id()).is_none());
    node.advance_time(1);
    assert!(node.dispatch_next(r.id()).is_some());
}

#[test]
fn memory_quota_trap_is_seen_by_linked_supervisor_not_spawner() {
    let mut node = Node::new(Vec::new());
    // the supervisor lives in an unrestricted environment
    let mut free_env = Environment::new(&mut node, EnvConfig::default());
    let free_module = free_env.add_module(&mut node, vec![plain_export("worker")]);
    let sup = free_module.spawn(&mut node, "worker", &[]).unwrap();
    node.set_trapping(sup.id(), true);
    // the worker is capped at 1000 bytes of memory
    let mut capped_env = Environment::new(&mut node, EnvConfig::new(1000, None));
    let capped_module = capped_env.add_module(&mut node, vec![plain_export("worker")]);
    let worker = capped_module.spawn(&mut node, "worker", &[]).unwrap();
    // the spawn itself succeeded: the caller already holds a live handle
    assert!(matches!(status_of(&node, worker.id()), Status::Running));
    node.link(worker.id(), sup.id());
    node.allocate(worker.id(), 800);
    assert!(matches!(status_of(&node, worker.id()), Status::Running));
    node.allocate(worker.id(), 300);
    assert!(matches!(status_of(&node, worker.id()), Status::Failed(Fault::OutOfMemory)));
    match node.dispatch_next(sup.id()) {
        Some(Envelope::Exit { from, fault }) => {
            assert_eq!(from, worker.id());
            assert!(matches!(fault, Fault::OutOfMemory));
        },
        other => panic!("the supervisor should observe the trap, got {:?}", other),
    }
}

#[test]
fn compute_budget_trap() {
    let mut node = Node::new(Vec::new());
    let mut env = Environment::new(&mut node, EnvConfig::new(1_000_000, Some(5)));
    let module = env.add_module(&mut node, vec![plain_export("worker")]);
    let w = module.spawn(&mut node, "worker", &[]).unwrap();
    node.consume_fuel(w.id(), 4);
    assert!(matches!(status_of(&node, w.id()), Status::Running));
    node.consume_fuel(w.id(), 4);
    assert!(matches!(status_of(&node, w.id()), Status::Failed(Fault::OutOfFuel)));
}

#[test]
fn zero_compute_budget_means_unlimited() {
    let (mut node, _env, module) = setup();
    let w = spawn_worker(&mut node, &module);
    node.consume_fuel(w.id(), u64::MAX);
    assert!(matches!(status_of(&node, w.id()), Status::Running));
}

#[test]
fn messaging_without_capability_traps_the_sender() {
    let mut node = Node::new(Vec::new());
    // an environment with no namespaces allowed at all
    let mut env = Environment::new(&mut node, EnvConfig::new(1_000_000, None));
    let module = env.add_module(&mut node, vec![plain_export("worker")]);
    let a = module.spawn(&mut node, "worker", &[]).unwrap();
    let b = module.spawn(&mut node, "worker", &[]).unwrap();
    b.send(&mut node, a.id(), vec![1]);
    assert!(matches!(status_of(&node, a.id()), Status::Failed(Fault::NotAllowed)));
    assert!(matches!(status_of(&node, b.id()), Status::Running));
}

#[test]
fn allow_messaging_grants_the_capability() {
    let mut node = Node::new(Vec::new());
    let mut cfg = EnvConfig::new(1_000_000, None);
    cfg.allow_messaging();
    let mut env = Environment::new(&mut node, cfg);
    let module = env.add_module(&mut node, vec![plain_export("worker")]);
    let a = module.spawn(&mut node, "worker", &[]).unwrap();
    let b = module.spawn(&mut node, "worker", &[]).unwrap();
    b.send(&mut node, a.id(), vec![5]);
    assert!(matches!(status_of(&node, a.id()), Status::Running));
    match node.dispatch_next(b.id()) {
        Some(Envelope::Message { sender, payload }) => {
            assert_eq!(sender, a.id());
            assert_eq!(payload, vec![5]);
        },
        other => panic!("expected the message, got {:?}", other),
    }
}

#[test]
fn environment_spawns_from_the_running_module() {
    let mut node = Node::new(vec![plain_export("entry")]);
    let mut env = Environment::new(&mut node, EnvConfig::default());
    let p = env.spawn(&mut node, "entry", &[]).unwrap();
    assert!(matches!(status_of(&node, p.id()), Status::Running));
    assert!(matches!(
        env.spawn(&mut node, "missing", &[]),
        Err(SpawnError::EntryPointMissing)
    ));
}

#[test]
fn process_identifier_can_travel_inside_a_message() {
    let (mut node, _env, module) = setup();
    let a = spawn_worker(&mut node, &module);
    let b = spawn_worker(&mut node, &module);
    let c = spawn_worker(&mut node, &module);
    // a tells c about b by sending b's identifier in the payload
    c.send(&mut node, a.id(), b.id().to_le_bytes().to_vec());
    let learned = match node.dispatch_next(c.id()) {
        Some(Envelope::Message { payload, .. }) => {
            u64::from_le_bytes(payload.as_slice().try_into().unwrap())
        },
        other => panic!("expected the message, got {:?}", other),
    };
    let handle = Process::from_id(learned);
    handle.send(&mut node, c.id(), vec![77]);
    match node.dispatch_next(b.id()) {
        Some(Envelope::Message { sender, payload }) => {
            assert_eq!(sender, c.id());
            assert_eq!(payload, vec![77]);
        },
        other => panic!("expected the message, got {:?}", other),
    }
}

#[test]
fn verified_scenario_checks_also_run() {
    let (mut node, _env, module) = setup();
    let client = spawn_worker(&mut node, &module);
    let server = spawn_worker(&mut node, &module);
    let r = lunatic::laws::check_request_timeout_scenario(
        &mut node,
        client.id(),
        server.id(),
        vec![9],
        5,
    );
    assert!(matches!(r, RequestOutcome::Timeout));
    let child = lunatic::laws::check_spawn_link_supervision(
        &mut node,
        &module,
        client.id(),
        "worker",
        &[],
        true,
    );
    match node.dispatch_next(client.id()) {
        Some(Envelope::Exit { from, fault }) => {
            assert_eq!(from, child.id());
            assert!(matches!(fault, Fault::Failure));
        },
        other => panic!("expected the exit notification, got {:?}", other),
    }
}
