//! An in-process model of the host's channel facility.
//!
//! A channel endpoint is named by a handle: an opaque nonzero integer whose
//! receive capability is exclusively owned and must be explicitly released.
//! The model keeps the table of endpoints this subsystem has allocated, the
//! undelivered messages, the single well-known naming-service slot, and an
//! optional echoing remote service standing in for the peer process.  Handles
//! grow strictly, so a handle is never reused and a fresh endpoint can have no
//! stale traffic addressed to it.
//!
//! The protocol engine is verified and tested against this model: it is the
//! counting double for the allocation and release primitives, and the echoing
//! double for the remote service.  The process edge drives the same engine
//! against the host's real facility.

use vstd::prelude::*;

verus! {

/// One undelivered message: destination endpoint, reply endpoint carried for
/// the peer's answer, and the wire payload.
pub struct Packet {
    pub dest: u32,
    pub reply: u32,
    pub bytes: Vec<u8>,
}

/// The model of the host's channel facility.
pub struct PortSystem {
    /// The next handle to hand out; handles are never reused.
    pub next_port: u32,
    /// The receive endpoints this subsystem currently holds.
    pub live: Vec<u32>,
    /// Undelivered messages, oldest first.
    pub queue: Vec<Packet>,
    /// The endpoint registered under the well-known service name; 0 when the
    /// name is free.
    pub registered: u32,
    /// The endpoint of the echoing remote service double; 0 when none is
    /// attached.  A message sent to it is answered at once with the same
    /// payload, addressed to the sender's reply endpoint.
    pub echo_port: u32,
}

/// The least queue index holding a message for `port`, or -1.
pub open spec fn first_for(q: Seq<Packet>, port: u32) -> int
    decreases q.len(),
{
    if q.len() == 0 {
        -1
    } else if q[0].dest == port {
        0
    } else {
        let r = first_for(q.drop_first(), port);
        if r == -1 {
            -1
        } else {
            r + 1
        }
    }
}

pub proof fn lemma_first_for_props(q: Seq<Packet>, port: u32)
    ensures
        first_for(q, port) == -1 ==> forall|j: int|
            0 <= j < q.len() ==> (#[trigger] q[j]).dest != port,
        first_for(q, port) != -1 ==> {
            let m = first_for(q, port);
            &&& 0 <= m < q.len()
            &&& q[m].dest == port
            &&& forall|j: int| 0 <= j < m ==> (#[trigger] q[j]).dest != port
        },
    decreases q.len(),
{
    if q.len() > 0 {
        lemma_first_for_props(q.drop_first(), port);
        assert(forall|j: int| 1 <= j < q.len() ==> #[trigger] q[j] == q.drop_first()[j - 1]);
    }
}

/// Two endpoint tables hold the same endpoints, as many of them each.
pub open spec fn same_live(a: Seq<u32>, b: Seq<u32>) -> bool {
    a.len() == b.len() && forall|p: u32| a.contains(p) == b.contains(p)
}

/// Law: handles are never reused, so a handle at or above the allocation
/// watermark is held by nobody and has no pending traffic.  A freshly
/// allocated reply endpoint can therefore only ever receive the reply to its
/// own request: request/reply correlation rests on each exchange's private
/// endpoint alone, not on arrival order.
pub proof fn lemma_fresh_endpoint_quiet(sys: PortSystem, p: u32)
    requires
        sys.wf(),
        p >= sys.next_port,
    ensures
        first_for(sys.queue@, p) == -1,
        !sys.live@.contains(p),
{
    lemma_first_for_props(sys.queue@, p);
    if first_for(sys.queue@, p) != -1 {
        let m = first_for(sys.queue@, p);
        assert(sys.queue@[m].dest == p);
    }
    if sys.live@.contains(p) {
        let j = choose|j: int| 0 <= j < sys.live@.len() && sys.live@[j] == p;
    }
}

impl PortSystem {
    /// The model's invariant: handles are nonzero, below the allocation
    /// watermark and held at most once, and no message is addressed at or
    /// above the watermark (so a fresh endpoint has no pending traffic).
    pub open spec fn wf(self) -> bool {
        &&& 0 < self.next_port
        &&& forall|i: int|
            0 <= i < self.live@.len() ==> 0 < #[trigger] self.live@[i] < self.next_port
        &&& self.live@.no_duplicates()
        &&& forall|i: int|
            0 <= i < self.queue@.len() ==> (#[trigger] self.queue@[i]).dest < self.next_port
        &&& self.registered < self.next_port
        &&& self.echo_port < self.next_port
    }

    /// A facility with no endpoints, no traffic, a free name slot and no
    /// remote service attached.
    pub fn new() -> (sys: PortSystem)
        ensures
            sys.wf(),
            sys.next_port == 1,
            sys.live@.len() == 0,
            sys.queue@.len() == 0,
            sys.registered == 0,
            sys.echo_port == 0,
    {
        PortSystem { next_port: 1, live: Vec::new(), queue: Vec::new(), registered: 0, echo_port: 0 }
    }

    /// Attach the echoing remote service double and register it under the
    /// well-known name, as the peer process would have done at its start.
    pub fn install_echo_service(&mut self) -> (p: u32)
        requires
            old(self).wf(),
            old(self).next_port < u32::MAX,
            old(self).registered == 0,
        ensures
            final(self).wf(),
            p == old(self).next_port,
            final(self).next_port == old(self).next_port + 1,
            final(self).echo_port == p,
            final(self).registered == p,
            final(self).live@ == old(self).live@,
            final(self).queue@ == old(self).queue@,
    {
        let p = self.next_port;
        self.next_port = self.next_port + 1;
        self.echo_port = p;
        self.registered = p;
        p
    }

    /// Allocate one fresh receive-capable endpoint.
    pub fn allocate(&mut self) -> (p: u32)
        requires
            old(self).wf(),
            old(self).next_port < u32::MAX,
        ensures
            final(self).wf(),
            p == old(self).next_port,
            0 < p,
            !old(self).live@.contains(p),
            first_for(old(self).queue@, p) == -1,
            final(self).next_port == old(self).next_port + 1,
            final(self).live@ == old(self).live@.push(p),
            final(self).queue@ == old(self).queue@,
            final(self).registered == old(self).registered,
            final(self).echo_port == old(self).echo_port,
    {
        let p = self.next_port;
        self.next_port = self.next_port + 1;
        proof {
            if old(self).live@.contains(p) {
                let j = choose|j: int|
                    0 <= j < old(self).live@.len() && old(self).live@[j] == p;
            }
            lemma_first_for_props(old(self).queue@, p);
            if first_for(old(self).queue@, p) != -1 {
                let m = first_for(old(self).queue@, p);
                assert(old(self).queue@[m].dest == p);
            }
        }
        self.live.push(p);
        proof {
            let nl = self.live@;
            let ol = old(self).live@;
            assert forall|i: int, j: int| 0 <= i < j < nl.len() implies nl[i] != nl[j] by {
                if j < ol.len() {
                } else {
                    assert(nl[j] == p);
                    assert(0 < nl[i] < p);
                }
            }
        }
        p
    }

    /// Release one held endpoint; the handle is retired, never reissued.
    pub fn release(&mut self, port: u32)
        requires
            old(self).wf(),
            old(self).live@.contains(port),
        ensures
            final(self).wf(),
            final(self).live@.len() == old(self).live@.len() - 1,
            !final(self).live@.contains(port),
            forall|p: u32|
                p != port ==> #[trigger] final(self).live@.contains(p) == old(
                    self,
                ).live@.contains(p),
            final(self).next_port == old(self).next_port,
            final(self).queue@ == old(self).queue@,
            final(self).registered == old(self).registered,
            final(self).echo_port == old(self).echo_port,
    {
        let ghost ol = old(self).live@;
        let mut i: usize = 0;
        while i < self.live.len()
            invariant
                ol == old(self).live@,
                self.live@ == ol,
                self.next_port == old(self).next_port,
                self.queue@ == old(self).queue@,
                self.registered == old(self).registered,
                self.echo_port == old(self).echo_port,
                old(self).wf(),
                ol.contains(port),
                i <= ol.len(),
                forall|j: int| 0 <= j < i ==> ol[j] != port,
            decreases ol.len() - i,
        {
            if self.live[i] == port {
                self.live.remove(i);
                proof {
                    let nl = self.live@;
                    assert(nl =~= ol.take(i as int) + ol.skip(i as int + 1));
                    assert forall|j: int| 0 <= j < nl.len() implies nl[j] != port by {
                        if j < i {
                        } else {
                            assert(nl[j] == ol[j + 1]);
                            assert(ol[j + 1] != ol[i as int]);
                        }
                    }
                    assert forall|j: int| 0 <= j < nl.len() implies 0 < #[trigger] nl[j]
                        < self.next_port by {
                        if j < i {
                        } else {
                            assert(nl[j] == ol[j + 1]);
                        }
                    }
                    assert forall|a: int, b: int| 0 <= a < b < nl.len() implies nl[a] != nl[b] by {
                        let a0: int = if a < i {
                            a
                        } else {
                            a + 1
                        };
                        let b0: int = if b < i {
                            b
                        } else {
                            b + 1
                        };
                        assert(nl[a] == ol[a0]);
                        assert(nl[b] == ol[b0]);
                    }
                    if !nl.contains(port) {
                    }
                    assert forall|p: u32| p != port implies #[trigger] nl.contains(p)
                        == ol.contains(p) by {
                        if nl.contains(p) {
                            let j = choose|j: int| 0 <= j < nl.len() && nl[j] == p;
                            let j0: int = if j < i {
                                j
                            } else {
                                j + 1
                            };
                            assert(ol[j0] == p);
                        }
                        if ol.contains(p) {
                            let j = choose|j: int| 0 <= j < ol.len() && ol[j] == p;
                            if j < i {
                                assert(nl[j] == p);
                            } else {
                                assert(j != i);
                                assert(nl[j - 1] == ol[j]);
                            }
                        }
                    }
                }
                return ;
            }
            i = i + 1;
        }
        proof {
            let j = choose|j: int| 0 <= j < ol.len() && ol[j] == port;
            assert(false);
        }
    }

    /// Send one message: a message to the echoing remote service is answered
    /// at once with the same payload, addressed to the carried reply
    /// endpoint; any other message is queued for its destination.
    pub fn send(&mut self, dest: u32, reply: u32, bytes: Vec<u8>)
        requires
            old(self).wf(),
            dest < old(self).next_port,
            reply < old(self).next_port,
        ensures
            final(self).wf(),
            final(self).queue@.len() == old(self).queue@.len() + 1,
            final(self).queue@.drop_last() == old(self).queue@,
            ({
                let p = final(self).queue@.last();
                if dest == old(self).echo_port && old(self).echo_port != 0 {
                    p.dest == reply && p.bytes@ == bytes@
                } else {
                    p.dest == dest && p.reply == reply && p.bytes@ == bytes@
                }
            }),
            final(self).live@ == old(self).live@,
            final(self).next_port == old(self).next_port,
            final(self).registered == old(self).registered,
            final(self).echo_port == old(self).echo_port,
    {
        let pkt = if dest == self.echo_port && self.echo_port != 0 {
            Packet { dest: reply, reply: 0, bytes }
        } else {
            Packet { dest, reply, bytes }
        };
        self.queue.push(pkt);
        proof {
            assert(self.queue@.drop_last() =~= old(self).queue@);
        }
    }

    /// Receive the next message for a held endpoint, or nothing when none is
    /// pending (the peer has not answered, or never will: a timeout).
    pub fn receive(&mut self, port: u32) -> (r: Option<Packet>)
        requires
            old(self).wf(),
            old(self).live@.contains(port),
        ensures
            final(self).wf(),
            ({
                let ff = first_for(old(self).queue@, port);
                if ff >= 0 {
                    &&& r matches Some(p) && p == old(self).queue@[ff]
                    &&& (r matches Some(p) && p.dest == port)
                    &&& final(self).queue@ == old(self).queue@.remove(ff)
                } else {
                    &&& r is None
                    &&& final(self).queue@ == old(self).queue@
                }
            }),
            final(self).live@ == old(self).live@,
            final(self).next_port == old(self).next_port,
            final(self).registered == old(self).registered,
            final(self).echo_port == old(self).echo_port,
    {
        let ghost oq = old(self).queue@;
        proof {
            lemma_first_for_props(oq, port);
        }
        let mut i: usize = 0;
        while i < self.queue.len()
            invariant
                oq == old(self).queue@,
                self.queue@ == oq,
                self.live@ == old(self).live@,
                self.next_port == old(self).next_port,
                self.registered == old(self).registered,
                self.echo_port == old(self).echo_port,
                old(self).wf(),
                self.wf(),
                i <= oq.len(),
                forall|j: int| 0 <= j < i ==> (#[trigger] oq[j]).dest != port,
            decreases oq.len() - i,
        {
            if self.queue[i].dest == port {
                proof {
                    lemma_first_for_props(oq, port);
                    assert(first_for(oq, port) == i as int);
                }
                let pkt = self.queue.remove(i);
                proof {
                    let nq = self.queue@;
                    assert(nq =~= oq.remove(i as int));
                    assert forall|j: int| 0 <= j < nq.len() implies (#[trigger] nq[j]).dest
                        < self.next_port by {
                        if j < i {
                            assert(nq[j] == oq[j]);
                        } else {
                            assert(nq[j] == oq[j + 1]);
                        }
                    }
                }
                return Some(pkt);
            }
            i = i + 1;
        }
        proof {
            lemma_first_for_props(oq, port);
            if first_for(oq, port) != -1 {
                let m = first_for(oq, port);
                assert(oq[m].dest != port);
            }
        }
        None
    }

    /// Register an endpoint under the well-known service name; the
    /// registration is refused when the name is already taken.
    pub fn register(&mut self, port: u32) -> (ok: bool)
        requires
            old(self).wf(),
            0 < port < old(self).next_port,
        ensures
            final(self).wf(),
            ok == (old(self).registered == 0),
            ok ==> final(self).registered == port,
            !ok ==> final(self).registered == old(self).registered,
            final(self).live@ == old(self).live@,
            final(self).queue@ == old(self).queue@,
            final(self).next_port == old(self).next_port,
            final(self).echo_port == old(self).echo_port,
    {
        if self.registered == 0 {
            self.registered = port;
            true
        } else {
            false
        }
    }

    /// Resolve the well-known service name to its registered endpoint, or 0
    /// when the name is not registered.
    pub fn lookup(&self) -> (p: u32)
        ensures
            p == self.registered,
    {
        self.registered
    }

    /// How many endpoints this subsystem currently holds: the observable of
    /// the counting double for the allocation and release primitives.
    pub fn allocated_count(&self) -> (n: usize)
        ensures
            n == self.live@.len(),
    {
        self.live.len()
    }
}

} // verus!
