//! The crate-level laws of the process model, stated once and proved from
//! the operation contracts: failure propagation over links, correlation-tag
//! freshness, and mailbox FIFO order.

use vstd::prelude::*;
use vstd::string::StringSliceAdditionalSpecFns;
use crate::environment::{Module, Process};
use crate::node::{
    deliveries_to, doomed, doomed_via, due_pos, env_tag_ok, exit_count, export_idx,
    first_non_reply, frame_except, is_reply, is_reply_tag, lemma_deliveries_are_messages,
    lemma_find_reply_none, requested, sent, spawned, spec_deadline, terminated, terminated_at,
    Envelope, Fault, Node, PendingRequest, RequestOutcome, Status,
};
use crate::params::Param;

verus! {

/// Law: for any linked pair, abnormally terminating one side is observed by
/// the other exactly once — a peer that traps exits keeps running and finds
/// exactly one new exit notification from the dead process appended to its
/// mailbox; a peer that does not trap dies with the same cause.  Either
/// way the link itself is gone, so the observation cannot repeat.
pub proof fn lemma_link_failure_observed(a: Node, b: Node, x: u64, y: u64, fault: Fault)
    requires
        a.wf(),
        a.is_running(x),
        a.is_running(y),
        x != y,
        a.linked(x, y),
        terminated(a, b, x, fault),
    ensures
        ({
            let iy = a.proc_idx(y);
            let pa = a.processes@[iy];
            let pb = b.processes@[iy];
            &&& (pa.trapping ==> pb.status == pa.status && exit_count(pb.mailbox@, x)
                == exit_count(pa.mailbox@, x) + 1 && pa.mailbox@.is_prefix_of(pb.mailbox@))
            &&& (!pa.trapping ==> pb.status == Status::Failed(fault))
            &&& !pb.links@.contains(x)
        }),
{
    a.lemma_proc_idx(y);
    a.lemma_proc_idx(x);
    let iy = a.proc_idx(y);
    assert(terminated_at(a, b, x, fault, iy));
    assert(a.proc(y) == a.processes@[iy]);
    assert(a.processes@[iy].links@.contains(x));
    assert(a.processes@[iy].id != x);
}

/// Law: termination is silent to third parties.  A process with no links
/// at all is untouched by any abnormal termination, however far the
/// cascade reaches: its status stands, and it receives no exit
/// notification from anyone.  Only direct links observe a failure, so
/// supervision has to be built by linking.
pub proof fn lemma_termination_silent_to_third_parties(
    a: Node,
    b: Node,
    pid: u64,
    fault: Fault,
    z: u64,
)
    requires
        a.wf(),
        terminated(a, b, pid, fault),
        a.has_proc(z),
        z != pid,
        a.proc(z).links@.len() == 0,
    ensures
        ({
            let iz = a.proc_idx(z);
            &&& b.processes@[iz].status == a.processes@[iz].status
            &&& forall|s: u64|
                exit_count(b.processes@[iz].mailbox@, s) == exit_count(
                    a.processes@[iz].mailbox@,
                    s,
                )
        }),
{
    a.lemma_proc_idx(z);
    let iz = a.proc_idx(z);
    assert(terminated_at(a, b, pid, fault, iz));
    let pa = a.processes@[iz];
    assert(pa == a.proc(z));
    // an unlinked process is never doomed: every cascade chain needs a
    // first link
    assert(!doomed(a, pid, z)) by {
        if doomed(a, pid, z) {
            let nn = choose|nn: nat| doomed_via(a, pid, z, nn);
            assert(!a.proc(z).links@.contains(pid));
            if nn > 0 && exists|y: u64|
                #[trigger] a.proc(z).links@.contains(y) && doomed_via(a, pid, y, (nn - 1) as nat) {
                let y = choose|y: u64|
                    #[trigger] a.proc(z).links@.contains(y) && doomed_via(
                        a,
                        pid,
                        y,
                        (nn - 1) as nat,
                    );
                assert(!a.proc(z).links@.contains(y));
            }
            assert(false);
        }
    }
    assert forall|s: u64|
        exit_count(b.processes@[iz].mailbox@, s) == exit_count(a.processes@[iz].mailbox@, s) by {
        assert(!pa.links@.contains(s));
    }
}

/// Law: a correlation tag drawn for a new request is fresh — it differs
/// from every tag a timed-out request left behind, in any process.  A late
/// reply, which carries a stale tag, therefore never satisfies a request
/// begun later.
pub proof fn lemma_stale_tag_never_reused(
    a: Node,
    b: Node,
    caller: u64,
    target: u64,
    payload: Vec<u8>,
    tag: u64,
    deadline: Option<u64>,
    pid: u64,
    stale_tag: u64,
)
    requires
        a.wf(),
        requested(a, b, caller, target, payload, tag, deadline),
        a.has_proc(pid),
        a.proc(pid).stale@.contains(stale_tag),
    ensures
        stale_tag != tag,
{
    a.lemma_proc_idx(pid);
    let i = a.proc_idx(pid);
    assert(a.wf_tags_at(i));
    let k = choose|k: int|
        0 <= k < a.processes@[i].stale@.len() && a.processes@[i].stale@[k] == stale_tag;
    assert(a.processes@[i].stale@[k] < a.next_tag);
}

/// Law (mailbox FIFO, enqueue half): delivering one envelope never reorders
/// a mailbox — every envelope already enqueued keeps its position, and the
/// new envelope goes behind them all.  Messages sent first therefore sit
/// earlier, whatever other senders interleave.
pub proof fn lemma_send_order_kept(a: Node, b: Node, receiver: u64, e: Envelope, i: int, k: int)
    requires
        sent(a, b, receiver, e),
        0 <= i < a.processes@.len(),
        0 <= k < a.processes@[i].mailbox@.len(),
    ensures
        b.processes@[i].mailbox@[k] == a.processes@[i].mailbox@[k],
        a.processes@[i].id == receiver && a.processes@[i].status is Running
            ==> b.processes@[i].mailbox@.len() == a.processes@[i].mailbox@.len() + 1
            && b.processes@[i].mailbox@.last() == e,
{
}

proof fn lemma_first_non_reply_min(mb: Seq<Envelope>, i: int)
    requires
        0 <= i < mb.len(),
        !is_reply(mb[i]),
    ensures
        0 <= first_non_reply(mb) <= i,
    decreases mb.len(),
{
    if mb.len() > 0 && is_reply(mb[0]) {
        assert(mb.drop_first()[i - 1] == mb[i]);
        lemma_first_non_reply_min(mb.drop_first(), i - 1);
    }
}

/// Law (mailbox FIFO, dispatch half): the dispatch loop hands out the
/// earliest non-reply envelope.  Of two inbound items the earlier is
/// dispatched first, and the later one stays queued, in place, behind it —
/// so a fixed sender's messages are handled in send order.
pub proof fn lemma_dispatch_fifo(mb: Seq<Envelope>, i: int, j: int)
    requires
        0 <= i < j < mb.len(),
        !is_reply(mb[i]),
        !is_reply(mb[j]),
    ensures
        0 <= first_non_reply(mb) <= i,
        mb.subrange(first_non_reply(mb) + 1, mb.len() as int)[j - first_non_reply(mb) - 1] == mb[
            j],
{
    lemma_first_non_reply_min(mb, i);
}

/// A verified run of the supervision story: a process spawns a child with
/// an atomic link; the child then terminates abnormally.  A parent that
/// traps exits keeps its status and finds exactly one new exit
/// notification from the child; one that does not trap fails with the same
/// cause.  Either way the link is gone afterwards, so the observation
/// cannot repeat.
pub fn check_spawn_link_supervision(
    node: &mut Node,
    m: &Module,
    parent: u64,
    function: &str,
    params: &[Param],
    trap: bool,
) -> (child: Process)
    requires
        old(node).wf(),
        old(node).has_module(m.id),
        old(node).next_pid < u64::MAX,
        old(node).is_running(parent),
        ({
            let mm = old(node).module_st(m.id);
            let ei = export_idx(mm.exports@, function.spec_bytes());
            ei < mm.exports@.len() && crate::params::kinds_match(
                params@,
                mm.exports@[ei].param_kinds@,
            )
        }),
    ensures
        final(node).wf(),
        child.id == old(node).next_pid,
        ({
            let ip = old(node).proc_idx(parent);
            let pa = old(node).processes@[ip];
            let pb = final(node).processes@[ip];
            &&& trap ==> pb.status == pa.status && exit_count(pb.mailbox@, child.id)
                == exit_count(pa.mailbox@, child.id) + 1 && pa.mailbox@.is_prefix_of(pb.mailbox@)
            &&& !trap ==> pb.status == Status::Failed(Fault::Failure)
            &&& !pb.links@.contains(child.id)
        }),
{
    let ghost a = *old(node);
    proof {
        a.lemma_proc_idx(parent);
    }
    let ghost ip = a.proc_idx(parent);
    node.set_trapping(parent, trap);
    let ghost s1 = *node;
    proof {
        assert(s1.processes@[ip].id == parent && s1.processes@[ip].trapping == trap
            && s1.processes@[ip].status == a.processes@[ip].status && s1.processes@[ip].mailbox@
            == a.processes@[ip].mailbox@ && s1.processes@[ip].links@ == a.processes@[ip].links@);
        assert(s1.is_running(parent)) by {
            s1.lemma_proc_idx(parent);
        }
        assert(s1.module_st(m.id) == a.module_st(m.id)) by {
            a.lemma_module_idx(m.id);
            s1.lemma_module_idx(m.id);
            assert(s1.modules@[a.module_idx(m.id)].id == m.id);
        }
    }
    let r = m.spawn_link(node, parent, function, params);
    let child = match r {
        Ok(c) => c,
        Err(_) => {
            proof {
                assert(false);
            }
            Process::from_id(0)
        },
    };
    let ghost s2 = *node;
    proof {
        assert(spawned(s1, s2, m.id, s1.next_pid, Some(parent)));
        assert(child.id == a.next_pid);
        // the parent gained the link, nothing else
        assert(s2.processes@[ip].links@ == s1.processes@[ip].links@.push(child.id));
        assert(s2.processes@[ip].links@.contains(child.id)) by {
            assert(s2.processes@[ip].links@.last() == child.id);
        }
        // the fresh child runs
        assert(s2.processes@.last().id == child.id && s2.processes@.last().status is Running);
        assert(s2.is_running(child.id)) by {
            assert(s2.processes@[s2.processes@.len() - 1].id == child.id);
            s2.lemma_proc_idx(child.id);
        }
    }
    node.terminate(child.id, Fault::Failure);
    proof {
        assert(terminated(s2, *node, child.id, Fault::Failure));
        assert(terminated_at(s2, *node, child.id, Fault::Failure, ip));
        let p2 = s2.processes@[ip];
        let pb = node.processes@[ip];
        assert(p2.id == parent);
        assert(p2.id != child.id) by {
            assert(a.processes@[ip].id < a.next_pid);
        }
        assert(p2.status == a.processes@[ip].status && p2.status is Running);
        assert(p2.trapping == trap);
        assert(crate::node::died_in(s2, *node, child.id, child.id));
        if trap {
            assert(exit_count(pb.mailbox@, child.id) == exit_count(p2.mailbox@, child.id) + 1);
            assert(p2.mailbox@ == a.processes@[ip].mailbox@);
            assert(a.processes@[ip].mailbox@.is_prefix_of(pb.mailbox@));
        }
    }
    child
}

/// A verified run of the bounded-wait story: a caller requests from a
/// target with deadline `now + d` and no reply ever comes.  Once the clock
/// passes the deadline, polling reports a typed timeout instead of waiting
/// on — and the in-flight request still sits untouched in the target's
/// mailbox: the timeout stops the caller from waiting, it retracts
/// nothing.
pub fn check_request_timeout_scenario(
    node: &mut Node,
    client: u64,
    server: u64,
    payload: Vec<u8>,
    d: u64,
) -> (r: RequestOutcome)
    requires
        old(node).wf(),
        old(node).is_running(client),
        old(node).is_running(server),
        client != server,
        old(node).proc(client).pending is None,
        old(node).can_message(client),
        old(node).next_tag < u64::MAX,
        old(node).now + d <= u64::MAX,
    ensures
        final(node).wf(),
        r is Timeout,
        ({
            let iserv = old(node).proc_idx(server);
            let before = old(node).processes@[iserv].mailbox@;
            &&& final(node).processes@[iserv].mailbox@.len() > before.len()
            &&& final(node).processes@[iserv].mailbox@[before.len() as int] == (Envelope::Request {
                sender: client,
                tag: old(node).next_tag,
                payload,
            })
        }),
{
    let ghost a = *old(node);
    proof {
        a.lemma_proc_idx(client);
        a.lemma_proc_idx(server);
    }
    let ghost ic = a.proc_idx(client);
    let ghost iserv = a.proc_idx(server);
    let ghost req = Envelope::Request { sender: client, tag: a.next_tag, payload };
    let t = node.request(client, server, payload, Some(d));
    let ghost s1 = *node;
    proof {
        assert(requested(a, s1, client, server, payload, t, spec_deadline(a.now, Some(d))));
        assert(ic != iserv);
        // the request landed at the end of the target's mailbox
        assert(s1.processes@[iserv].mailbox@ == a.processes@[iserv].mailbox@.push(req));
        // the caller recorded the tag and the absolute deadline
        assert(s1.processes@[ic].pending == Some(
            PendingRequest { tag: t, deadline: Some((a.now + d) as u64) },
        ));
        assert(s1.processes@[ic].mailbox@ == a.processes@[ic].mailbox@);
    }
    node.advance_time(d);
    let ghost s2 = *node;
    let ghost due = s1.delayed@.take(due_pos(s1.delayed@, (s1.now + d) as u64));
    proof {
        assert(s2.now == a.now + d);
        assert(s2.processes@[ic].pending == s1.processes@[ic].pending
            && s2.processes@[ic].mailbox@ == s1.processes@[ic].mailbox@ + deliveries_to(
            due,
            client,
        ) && s2.processes@[ic].status == s1.processes@[ic].status);
        assert(s2.processes@[iserv].mailbox@.len() >= s1.processes@[iserv].mailbox@.len()
            && s2.processes@[iserv].mailbox@[s1.processes@[iserv].mailbox@.len() - 1] == req) by {
            if s1.processes@[iserv].status is Running {
                assert(s2.processes@[iserv].mailbox@ == s1.processes@[iserv].mailbox@
                    + deliveries_to(due, server));
            } else {
                assert(s2.processes@[iserv] == s1.processes@[iserv]);
            }
        }
        assert(s2.is_running(client)) by {
            s2.lemma_proc_idx(client);
        }
        assert(s2.proc(client) == s2.processes@[ic]) by {
            s2.lemma_proc_idx(client);
        }
        // nothing in the caller's mailbox resolves the tag: older replies
        // carry older tags, and the timer releases only plain messages
        let mb2 = s2.processes@[ic].mailbox@;
        lemma_deliveries_are_messages(due, client);
        assert forall|k: int| 0 <= k < mb2.len() implies !is_reply_tag(#[trigger] mb2[k], t) by {
            if k < a.processes@[ic].mailbox@.len() {
                assert(a.wf_tags_at(ic));
                assert(env_tag_ok(a.processes@[ic].mailbox@[k], a.next_tag));
                assert(mb2[k] == a.processes@[ic].mailbox@[k]);
            } else {
                assert(mb2[k] == deliveries_to(due, client)[k - a.processes@[ic].mailbox@.len()]);
            }
        }
        lemma_find_reply_none(mb2, t);
    }
    let r = node.poll_reply(client);
    proof {
        assert(frame_except(s2, *node, client));
        assert(node.processes@[iserv] == s2.processes@[iserv]) by {
            assert(s2.processes@[iserv].id == server);
        }
        assert(node.processes@[iserv].mailbox@[a.processes@[iserv].mailbox@.len() as int] == req);
    }
    r
}

} // verus!
