//! Listener: register under a service name, then receive and dispatch
//! inbound messages one at a time.
//!
//! The listener walks `Unregistered -> Registering -> Running -> Stopped`.
//! Starting allocates one receive endpoint and registers it with the naming
//! service; any failed step goes straight to `Stopped` with nothing retried
//! and nothing leaked.  While `Running`, each inbound message is decoded and
//! handed over exactly once, in arrival order; dispatch is strictly
//! sequential.  `Stopped` is terminal: no transition leaves it.
//!
//! The model listener records each decoded text in `delivered`, in the order
//! the handler would have been invoked with it; the process edge runs the
//! blocking receive loop and calls the real handler with each text.

use crate::codec::decode_from;
use crate::codec::has_terminator;
use crate::codec::try_read_double_nul_terminated_string;
use crate::ports::Packet;
use crate::ports::PortSystem;
use crate::ports::first_for;
use crate::ports::lemma_first_for_props;
use crate::ports::same_live;
use vstd::prelude::*;

verus! {

/// The listener's lifecycle states.
#[derive(Clone, Copy, PartialEq, Eq, Structural)]
pub enum ServerState {
    Unregistered,
    Registering,
    Running,
    Stopped,
}

/// The listener's state graph: registration either completes into `Running`
/// or fails into `Stopped`; `Running` leaves only on the explicit stop
/// signal; `Stopped` is terminal.
pub open spec fn server_step_allowed(pre: ServerState, post: ServerState) -> bool {
    match pre {
        ServerState::Unregistered => post is Registering,
        ServerState::Registering => post is Registering || post is Running || post is Stopped,
        ServerState::Running => post is Running || post is Stopped,
        ServerState::Stopped => false,
    }
}

/// Law: `Stopped` is terminal — the state graph allows no transition out of
/// it, so a stopped listener can never restart.
pub proof fn lemma_stopped_terminal(post: ServerState)
    ensures
        !server_step_allowed(ServerState::Stopped, post),
{
}

/// Enter the registration phase.
pub fn server_start(state: ServerState) -> (post: ServerState)
    requires
        state is Unregistered,
    ensures
        post is Registering,
        server_step_allowed(state, post),
{
    ServerState::Registering
}

/// Record one registration step's outcome: a failed step stops the listener
/// at once; none of the steps is retried.
pub fn server_registration_step(state: ServerState, ok: bool) -> (post: ServerState)
    requires
        state is Registering,
    ensures
        ok ==> post is Registering,
        !ok ==> post is Stopped,
        server_step_allowed(state, post),
{
    if ok {
        ServerState::Registering
    } else {
        ServerState::Stopped
    }
}

/// Every registration step succeeded: start running.
pub fn server_run(state: ServerState) -> (post: ServerState)
    requires
        state is Registering,
    ensures
        post is Running,
        server_step_allowed(state, post),
{
    ServerState::Running
}

/// The listener: its state, its receive endpoint, and the decoded texts it
/// has handed over, oldest first.
pub struct MachServer {
    pub state: ServerState,
    pub port: u32,
    pub delivered: Vec<String>,
}

impl MachServer {
    /// A listener that has not started yet.
    pub fn new() -> (srv: MachServer)
        ensures
            srv.state is Unregistered,
            srv.port == 0,
            srv.delivered@.len() == 0,
    {
        MachServer { state: ServerState::Unregistered, port: 0, delivered: Vec::new() }
    }
}

/// The text one inbound message decodes to: a message without a terminated
/// payload is handed over as the empty text, not as an error.
pub open spec fn decoded_text(b: Seq<u8>) -> Seq<char> {
    if has_terminator(b, 0) {
        decode_from(b, 0)
    } else {
        Seq::empty()
    }
}

/// The messages pending for one endpoint, in arrival order.
pub open spec fn pending_for(q: Seq<Packet>, port: u32) -> Seq<Packet> {
    q.filter(|p: Packet| p.dest == port)
}

/// The texts the pending messages for one endpoint decode to, in arrival
/// order.
pub open spec fn delivered_texts(q: Seq<Packet>, port: u32) -> Seq<Seq<char>> {
    pending_for(q, port).map_values(|p: Packet| decoded_text(p.bytes@))
}

/// The queue less the messages for one endpoint, order kept.
pub open spec fn residue(q: Seq<Packet>, port: u32) -> Seq<Packet> {
    q.filter(|p: Packet| p.dest != port)
}

proof fn lemma_filter_all(q: Seq<Packet>, pred: spec_fn(Packet) -> bool)
    requires
        forall|i: int| 0 <= i < q.len() ==> pred(#[trigger] q[i]),
    ensures
        q.filter(pred) == q,
    decreases q.len(),
{
    reveal(Seq::filter);
    if q.len() > 0 {
        lemma_filter_all(q.drop_last(), pred);
        assert(q.filter(pred) =~= q);
    } else {
        assert(q.filter(pred) =~= q);
    }
}

proof fn lemma_filter_singleton(x: Packet, pred: spec_fn(Packet) -> bool)
    ensures
        pred(x) ==> seq![x].filter(pred) == seq![x],
        !pred(x) ==> seq![x].filter(pred) == Seq::<Packet>::empty(),
{
    reveal_with_fuel(Seq::filter, 2);
    let s = seq![x];
    assert(s.drop_last() =~= Seq::<Packet>::empty());
    assert(s.last() == x);
    if pred(x) {
        assert(s.filter(pred) =~= seq![x]);
    } else {
        assert(s.filter(pred) =~= Seq::<Packet>::empty());
    }
}

/// Taking the first pending message off the queue takes the first entry off
/// the delivery list and leaves other traffic untouched.
proof fn lemma_queue_step(q: Seq<Packet>, port: u32)
    requires
        first_for(q, port) >= 0,
    ensures
        ({
            let ff = first_for(q, port);
            &&& delivered_texts(q, port) == seq![decoded_text(q[ff].bytes@)] + delivered_texts(
                q.remove(ff),
                port,
            )
            &&& residue(q.remove(ff), port) == residue(q, port)
            &&& pending_for(q.remove(ff), port).len() == pending_for(q, port).len() - 1
        }),
{
    let ff = first_for(q, port);
    lemma_first_for_props(q, port);
    let is_mine = |p: Packet| p.dest == port;
    let not_mine = |p: Packet| p.dest != port;
    let a = q.subrange(0, ff);
    let x = q[ff];
    let b = q.subrange(ff + 1, q.len() as int);
    assert(q =~= (a + seq![x]) + b);
    assert(q.remove(ff) =~= a + b);
    assert(forall|i: int| 0 <= i < a.len() ==> !is_mine(#[trigger] a[i]));
    assert(is_mine(x));
    assert(q.filter(is_mine) == a.filter(is_mine) + seq![x].filter(is_mine) + b.filter(
        is_mine,
    )) by {
        Seq::<Packet>::filter_distributes_over_add(a + seq![x], b, is_mine);
        Seq::<Packet>::filter_distributes_over_add(a, seq![x], is_mine);
    }
    assert(q.filter(not_mine) == a.filter(not_mine) + seq![x].filter(not_mine) + b.filter(
        not_mine,
    )) by {
        Seq::<Packet>::filter_distributes_over_add(a + seq![x], b, not_mine);
        Seq::<Packet>::filter_distributes_over_add(a, seq![x], not_mine);
    }
    Seq::<Packet>::filter_distributes_over_add(a, b, is_mine);
    Seq::<Packet>::filter_distributes_over_add(a, b, not_mine);
    a.lemma_all_neg_filter_empty(is_mine);
    lemma_filter_all(a, not_mine);
    lemma_filter_singleton(x, is_mine);
    lemma_filter_singleton(x, not_mine);
    assert(pending_for(q, port) =~= seq![x] + pending_for(q.remove(ff), port));
    assert(residue(q.remove(ff), port) =~= residue(q, port));
    lemma_map_cons(x, pending_for(q.remove(ff), port));
    assert(delivered_texts(q, port) == (seq![x] + pending_for(q.remove(ff), port)).map_values(
        |p: Packet| decoded_text(p.bytes@),
    ));
}

/// Mapping the decode over one more leading message prepends one more text.
proof fn lemma_map_cons(x: Packet, rest: Seq<Packet>)
    ensures
        (seq![x] + rest).map_values(|p: Packet| decoded_text(p.bytes@)) == seq![
            decoded_text(x.bytes@),
        ] + rest.map_values(|p: Packet| decoded_text(p.bytes@)),
{
    assert((seq![x] + rest).map_values(|p: Packet| decoded_text(p.bytes@)) =~= seq![
        decoded_text(x.bytes@),
    ] + rest.map_values(|p: Packet| decoded_text(p.bytes@)));
}

/// A queue with nothing pending for the endpoint delivers nothing and is
/// all residue.
proof fn lemma_queue_done(q: Seq<Packet>, port: u32)
    requires
        first_for(q, port) == -1,
    ensures
        delivered_texts(q, port) == Seq::<Seq<char>>::empty(),
        residue(q, port) == q,
{
    lemma_first_for_props(q, port);
    let is_mine = |p: Packet| p.dest == port;
    let not_mine = |p: Packet| p.dest != port;
    assert(forall|i: int| 0 <= i < q.len() ==> !is_mine(#[trigger] q[i]));
    q.lemma_all_neg_filter_empty(is_mine);
    lemma_filter_all(q, not_mine);
    assert(delivered_texts(q, port) =~~= Seq::<Seq<char>>::empty());
}

/// Start the listener against the channel facility model: allocate its
/// receive endpoint and register it under the well-known name.  Failure to
/// register is fatal to the start: the listener stops, and the endpoint it
/// allocated is released rather than leaked.
pub fn event_server_begin(sys: &mut PortSystem, srv: &mut MachServer) -> (ok: bool)
    requires
        old(sys).wf(),
        old(sys).next_port < u32::MAX,
        old(srv).state is Unregistered,
    ensures
        final(sys).wf(),
        final(srv).delivered@ == old(srv).delivered@,
        final(sys).queue@ == old(sys).queue@,
        final(sys).echo_port == old(sys).echo_port,
        ok == (old(sys).registered == 0),
        ok ==> {
            &&& final(srv).state is Running
            &&& final(srv).port == old(sys).next_port
            &&& final(sys).registered == final(srv).port
            &&& final(sys).live@ == old(sys).live@.push(final(srv).port)
            &&& final(sys).live@.contains(final(srv).port)
            &&& final(sys).next_port == old(sys).next_port + 1
        },
        !ok ==> {
            &&& final(srv).state is Stopped
            &&& same_live(final(sys).live@, old(sys).live@)
            &&& final(sys).registered == old(sys).registered
        },
{
    srv.state = server_start(srv.state);
    let port = sys.allocate();
    srv.port = port;
    proof {
        assert(sys.live@[sys.live@.len() - 1] == port);
        assert(sys.live@.contains(port));
    }
    // the model grants the send right and the naming-service handle without
    // failing; the process edge feeds real outcomes through
    // `server_registration_step`
    let registered = sys.register(port);
    if registered {
        srv.state = server_run(srv.state);
        true
    } else {
        sys.release(port);
        srv.state = server_registration_step(srv.state, false);
        proof {
            let ol = old(sys).live@;
            let mid = ol.push(port);
            assert forall|p: u32| sys.live@.contains(p) == ol.contains(p) by {
                if p == port {
                    assert(!sys.live@.contains(p));
                    assert(!ol.contains(p));
                } else {
                    assert(sys.live@.contains(p) == mid.contains(p));
                    assert(mid.contains(p) == ol.contains(p)) by {
                        if ol.contains(p) {
                            let j = choose|j: int| 0 <= j < ol.len() && ol[j] == p;
                            assert(mid[j] == p);
                        }
                        if mid.contains(p) {
                            let j = choose|j: int| 0 <= j < mid.len() && mid[j] == p;
                            assert(j < ol.len());
                        }
                    }
                }
            }
            assert(same_live(sys.live@, old(sys).live@));
        }
        false
    }
}

/// Deliver every message now pending on the listener's endpoint: each is
/// decoded and recorded exactly once, in arrival order — the running
/// listener's receive loop against the channel facility model.  The process
/// edge blocks instead when nothing is pending, and polls its stop signal
/// only between deliveries.
pub fn server_poll(sys: &mut PortSystem, srv: &mut MachServer)
    requires
        old(sys).wf(),
        old(srv).state is Running,
        old(sys).live@.contains(old(srv).port),
    ensures
        final(sys).wf(),
        final(srv).state is Running,
        final(srv).port == old(srv).port,
        final(sys).live@ == old(sys).live@,
        final(sys).next_port == old(sys).next_port,
        final(sys).registered == old(sys).registered,
        final(sys).echo_port == old(sys).echo_port,
        final(srv).delivered.deep_view() == old(srv).delivered.deep_view() + delivered_texts(
            old(sys).queue@,
            old(srv).port,
        ),
        final(sys).queue@ == residue(old(sys).queue@, old(srv).port),
{
    let port = srv.port;
    loop
        invariant
            sys.wf(),
            srv.state is Running,
            port == srv.port == old(srv).port,
            sys.live@ == old(sys).live@,
            sys.next_port == old(sys).next_port,
            sys.registered == old(sys).registered,
            sys.echo_port == old(sys).echo_port,
            sys.live@.contains(port),
            srv.delivered.deep_view() + delivered_texts(sys.queue@, port) == old(
                srv,
            ).delivered.deep_view() + delivered_texts(old(sys).queue@, port),
            residue(sys.queue@, port) == residue(old(sys).queue@, port),
        decreases sys.queue@.len(),
    {
        let ghost q = sys.queue@;
        let pkt = sys.receive(port);
        match pkt {
            Option::None => {
                proof {
                    lemma_first_for_props(q, port);
                    if first_for(q, port) >= 0 {
                        assert(false);
                    }
                    assert(first_for(q, port) == -1);
                    lemma_queue_done(q, port);
                    assert(srv.delivered.deep_view() + Seq::<Seq<char>>::empty()
                        =~~= srv.delivered.deep_view());
                }
                return ;
            },
            Option::Some(p) => {
                proof {
                    if first_for(q, port) < 0 {
                        assert(false);
                    }
                    lemma_first_for_props(q, port);
                    lemma_queue_step(q, port);
                }
                let text = match try_read_double_nul_terminated_string(p.bytes.as_slice(), 0) {
                    Option::Some(s) => s,
                    Option::None => String::new(),
                };
                let ghost dv = srv.delivered.deep_view();
                let ghost ff = first_for(q, port);
                srv.delivered.push(text);
                proof {
                    assert(srv.delivered.deep_view() =~~= dv.push(text@));
                    assert(text@ == decoded_text(q[ff].bytes@));
                    assert(dv.push(text@) + delivered_texts(sys.queue@, port) =~~= dv + (seq![
                        decoded_text(q[ff].bytes@),
                    ] + delivered_texts(sys.queue@, port)));
                    assert(srv.delivered.deep_view() + delivered_texts(sys.queue@, port)
                        =~~= old(srv).delivered.deep_view() + delivered_texts(
                        old(sys).queue@,
                        port,
                    ));
                }
            },
        }
    }
}

/// The explicit external stop signal: the only way out of `Running`, polled
/// between deliveries, never during one.
pub fn server_stop(srv: &mut MachServer)
    requires
        old(srv).state is Running,
    ensures
        final(srv).state is Stopped,
        final(srv).port == old(srv).port,
        final(srv).delivered@ == old(srv).delivered@,
        server_step_allowed(old(srv).state, final(srv).state),
{
    srv.state = ServerState::Stopped;
}

} // verus!
