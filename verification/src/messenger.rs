//! Messenger: one synchronous request/reply exchange.
//!
//! An exchange allocates one fresh receive-capable reply endpoint, sends one
//! complex message carrying that endpoint and the encoded payload, blocks on
//! the reply endpoint for a bounded time, decodes whatever came back, and
//! releases the endpoint on every exit path.  The decisions of the exchange
//! are the phase engine below: the process edge performs one kernel call per
//! step and feeds the outcome back, and [`send_request`] drives the same
//! steps against the in-process model of the channel facility.
//!
//! All failure causes collapse into one optional result: a timeout, a silent
//! peer and a failed allocation all yield nothing.

use crate::codec::decode_from;
use crate::codec::encode_spec;
use crate::codec::format_mach_message;
use crate::codec::has_terminator;
use crate::codec::terminates_at;
use crate::codec::try_read_double_nul_terminated_string;
use crate::ports::PortSystem;
use crate::ports::first_for;
use crate::ports::lemma_first_for_props;
use crate::ports::same_live;
use crate::registry::PortCache;
use crate::registry::cached_resolve;
use vstd::prelude::*;

verus! {

/// Header bits: the remote right occupies the low mask, the local (reply)
/// right the second byte, the voucher right the third, and the remaining
/// bits carry flags such as the complex-message bit.
pub const MACH_MSGH_BITS_REMOTE_MASK: u32 = 0x0000_001f;

pub const MACH_MSGH_BITS_LOCAL_MASK: u32 = 0x0000_1f00;

pub const MACH_MSGH_BITS_VOUCHER_MASK: u32 = 0x001f_0000;

pub const MACH_MSGH_BITS_PORTS_MASK: u32 = MACH_MSGH_BITS_REMOTE_MASK | MACH_MSGH_BITS_LOCAL_MASK
    | MACH_MSGH_BITS_VOUCHER_MASK;

pub const MACH_MSGH_BITS_COMPLEX: u32 = 0x8000_0000;

/// The header-bits word for one message: each right's disposition in its own
/// field, the flag bits passed through outside the port fields.
pub open spec fn msgh_bits(remote: u32, local: u32, voucher: u32, other: u32) -> u32 {
    (remote & MACH_MSGH_BITS_REMOTE_MASK) | ((local << 8) & MACH_MSGH_BITS_LOCAL_MASK) | ((voucher
        << 16) & MACH_MSGH_BITS_VOUCHER_MASK) | (other & !MACH_MSGH_BITS_PORTS_MASK)
}

/// Compose the header-bits word for one message.
pub fn mach_msgh_bits_set(remote: u32, local: u32, voucher: u32, other: u32) -> (r: u32)
    ensures
        r == msgh_bits(remote, local, voucher, other),
{
    (remote & MACH_MSGH_BITS_REMOTE_MASK) | ((local << 8) & MACH_MSGH_BITS_LOCAL_MASK) | ((voucher
        << 16) & MACH_MSGH_BITS_VOUCHER_MASK) | (other & !MACH_MSGH_BITS_PORTS_MASK)
}

/// The phases of one exchange.  The reply endpoint appears in a phase
/// exactly while the exchange holds it, so each phase says what the
/// exchange still owes the facility.
pub enum ExchangePhase {
    /// Validated; no endpoint allocated yet.
    Ready { target: u32 },
    /// The reply endpoint exists; a send right on it must still be made.
    NeedSendRight { target: u32, reply_port: u32 },
    /// The message can be sent.
    ReadyToSend { target: u32, reply_port: u32 },
    /// Sent once; awaiting the reply, bounded by the receive timeout.
    AwaitingReply { reply_port: u32 },
    /// The exchange is decided but the reply endpoint must be released.
    NeedRelease { reply_port: u32, reply: Option<String> },
    /// Finished; nothing is held.
    Done { reply: Option<String> },
}

/// The endpoint a phase still holds, if any.
pub open spec fn held_endpoint(ph: ExchangePhase) -> Option<u32> {
    match ph {
        ExchangePhase::Ready { .. } => None,
        ExchangePhase::NeedSendRight { reply_port, .. } => Some(reply_port),
        ExchangePhase::ReadyToSend { reply_port, .. } => Some(reply_port),
        ExchangePhase::AwaitingReply { reply_port } => Some(reply_port),
        ExchangePhase::NeedRelease { reply_port, .. } => Some(reply_port),
        ExchangePhase::Done { .. } => None,
    }
}

/// Begin an exchange: an empty payload or the invalid handle 0 is rejected
/// at once, with nothing allocated and nothing to release.
pub fn exchange_start(target: u32, payload_len: usize) -> (ph: ExchangePhase)
    ensures
        payload_len == 0 || target == 0 ==> (ph matches ExchangePhase::Done { reply } && reply
            is None),
        payload_len != 0 && target != 0 ==> ph == (ExchangePhase::Ready { target }),
        held_endpoint(ph) is None,
{
    if payload_len == 0 || target == 0 {
        ExchangePhase::Done { reply: None }
    } else {
        ExchangePhase::Ready { target }
    }
}

/// Record the outcome of allocating the reply endpoint: failure aborts the
/// exchange with nothing held; success hands the endpoint to the exchange.
pub fn exchange_allocated(ph: ExchangePhase, ok: bool, reply_port: u32) -> (nph: ExchangePhase)
    requires
        ph matches ExchangePhase::Ready { .. },
    ensures
        ok && reply_port != 0 ==> nph == (ExchangePhase::NeedSendRight {
            target: ph->Ready_target,
            reply_port,
        }),
        !(ok && reply_port != 0) ==> (nph matches ExchangePhase::Done { reply } && reply is None),
{
    match ph {
        ExchangePhase::Ready { target } => {
            if ok && reply_port != 0 {
                ExchangePhase::NeedSendRight { target, reply_port }
            } else {
                ExchangePhase::Done { reply: None }
            }
        },
        _ => ExchangePhase::Done { reply: None },
    }
}

/// Record the outcome of granting ourselves a send right on the reply
/// endpoint: failure still walks through the release phase, so the endpoint
/// cannot leak on this path.
pub fn exchange_right_inserted(ph: ExchangePhase, ok: bool) -> (nph: ExchangePhase)
    requires
        ph matches ExchangePhase::NeedSendRight { .. },
    ensures
        ok ==> nph == (ExchangePhase::ReadyToSend {
            target: ph->NeedSendRight_target,
            reply_port: ph->NeedSendRight_reply_port,
        }),
        !ok ==> nph == (ExchangePhase::NeedRelease {
            reply_port: ph->NeedSendRight_reply_port,
            reply: None,
        }),
{
    match ph {
        ExchangePhase::NeedSendRight { target, reply_port } => {
            if ok {
                ExchangePhase::ReadyToSend { target, reply_port }
            } else {
                ExchangePhase::NeedRelease { reply_port, reply: None }
            }
        },
        _ => ExchangePhase::Done { reply: None },
    }
}

/// The message went out once; its outcome is deliberately ignored, as this
/// layer never retries a send.
pub fn exchange_sent(ph: ExchangePhase) -> (nph: ExchangePhase)
    requires
        ph matches ExchangePhase::ReadyToSend { .. },
    ensures
        nph == (ExchangePhase::AwaitingReply { reply_port: ph->ReadyToSend_reply_port }),
{
    match ph {
        ExchangePhase::ReadyToSend { target: _, reply_port } => ExchangePhase::AwaitingReply {
            reply_port,
        },
        _ => ExchangePhase::Done { reply: None },
    }
}

/// Record what the bounded wait produced: no message or a message without a
/// valid attachment yields nothing — silence from the peer is a valid,
/// non-error outcome — and a well-terminated attachment is decoded.
pub fn exchange_replied(ph: ExchangePhase, attachment: Option<&Vec<u8>>) -> (nph: ExchangePhase)
    requires
        ph matches ExchangePhase::AwaitingReply { .. },
    ensures
        nph matches ExchangePhase::NeedRelease { reply_port, reply },
        nph->NeedRelease_reply_port == ph->AwaitingReply_reply_port,
        ({
            let reply = nph->NeedRelease_reply;
            match attachment {
                Option::None => reply is None,
                Option::Some(b) => {
                    if has_terminator(b@, 0) {
                        reply matches Some(s) && s@ == decode_from(b@, 0)
                    } else {
                        reply is None
                    }
                },
            }
        }),
{
    let reply_port = match ph {
        ExchangePhase::AwaitingReply { reply_port } => reply_port,
        _ => 0,
    };
    match attachment {
        Option::None => ExchangePhase::NeedRelease { reply_port, reply: None },
        Option::Some(b) => {
            let reply = try_read_double_nul_terminated_string(b.as_slice(), 0);
            ExchangePhase::NeedRelease { reply_port, reply }
        },
    }
}

/// The reply endpoint was destroyed and released; the exchange is finished
/// and holds nothing.
pub fn exchange_released(ph: ExchangePhase) -> (nph: ExchangePhase)
    requires
        ph matches ExchangePhase::NeedRelease { .. },
    ensures
        nph matches ExchangePhase::Done { reply },
        held_endpoint(nph) is None,
        nph->Done_reply == ph->NeedRelease_reply,
{
    match ph {
        ExchangePhase::NeedRelease { reply_port: _, reply } => ExchangePhase::Done { reply },
        _ => ExchangePhase::Done { reply: None },
    }
}

/// One synchronous request/reply exchange against the channel facility
/// model: encode, allocate a fresh reply endpoint, send once, wait, decode,
/// and release the endpoint on every path.
///
/// The contract carries the two central guarantees.  No exchange changes the
/// set of held endpoints: however it ends, every allocation is matched by
/// exactly one release.  And whatever other traffic is pending, an exchange
/// with the echoing remote service receives exactly the reply to its own
/// payload, because the reply arrives on the exchange's own fresh endpoint.
pub fn send_request(sys: &mut PortSystem, target: u32, payload: &str) -> (r: Option<String>)
    requires
        old(sys).wf(),
        old(sys).next_port < u32::MAX,
        target < old(sys).next_port,
    ensures
        final(sys).wf(),
        same_live(final(sys).live@, old(sys).live@),
        final(sys).registered == old(sys).registered,
        final(sys).echo_port == old(sys).echo_port,
        payload@.len() == 0 || target == 0 ==> {
            &&& r is None
            &&& final(sys).next_port == old(sys).next_port
            &&& final(sys).live@ == old(sys).live@
            &&& final(sys).queue@ == old(sys).queue@
        },
        payload@.len() != 0 && target != 0 ==> final(sys).next_port == old(sys).next_port + 1,
        payload@.len() != 0 && target != 0 && target == old(sys).echo_port ==> {
            &&& r matches Some(s) && s@ == decode_from(encode_spec(payload@), 0)
            &&& final(sys).queue@ == old(sys).queue@
        },
        payload@.len() != 0 && target != 0 && target != old(sys).echo_port ==> {
            &&& r is None
            &&& final(sys).queue@.len() == old(sys).queue@.len() + 1
            &&& final(sys).queue@.drop_last() == old(sys).queue@
            &&& final(sys).queue@.last().dest == target
            &&& final(sys).queue@.last().reply == old(sys).next_port
            &&& final(sys).queue@.last().bytes@ == encode_spec(payload@)
        },
{
    let payload_len = payload.unicode_len();
    let ph = exchange_start(target, payload_len);
    if payload_len == 0 || target == 0 {
        return None;
    }
    let wire = format_mach_message(payload);
    let ghost wire_bytes = wire@;
    proof {
        assert(wire_bytes == encode_spec(payload@));
        assert(wire_bytes[wire_bytes.len() - 2] == 0 && wire_bytes[wire_bytes.len() - 1] == 0);
        assert(terminates_at(wire_bytes, 0, wire_bytes.len() - 2));
        assert(has_terminator(wire_bytes, 0));
    }
    let reply_port = sys.allocate();
    proof {
        assert(sys.live@[sys.live@.len() - 1] == reply_port);
        assert(sys.live@.contains(reply_port));
    }
    let ph = exchange_allocated(ph, true, reply_port);
    // the model has no failing capability grant; the engine's failing branch
    // still releases, and the process edge exercises it against the host
    let ph = exchange_right_inserted(ph, true);
    proof {
        lemma_first_for_props(old(sys).queue@, reply_port);
    }
    sys.send(target, reply_port, wire);
    let ph = exchange_sent(ph);
    proof {
        let oldq = old(sys).queue@;
        let q = sys.queue@;
        assert(forall|j: int| 0 <= j < oldq.len() ==> (#[trigger] oldq[j]).dest != reply_port);
        assert forall|j: int| 0 <= j < q.len() - 1 implies (#[trigger] q[j]).dest
            != reply_port by {
            assert(q.drop_last()[j] == q[j]);
            assert(oldq[j] == q[j]);
        }
        lemma_first_for_props(q, reply_port);
        let ff = first_for(q, reply_port);
        if target == old(sys).echo_port && old(sys).echo_port != 0 {
            assert(q.last().dest == reply_port);
            assert(ff != -1);
            assert(ff == q.len() - 1);
        } else {
            assert(q.last().dest == target);
            assert(target != reply_port);
            if ff != -1 {
                assert(q[ff].dest == reply_port);
                assert(false);
            }
        }
    }
    let pkt = sys.receive(reply_port);
    let ph = match pkt {
        Option::Some(p) => exchange_replied(ph, Some(&p.bytes)),
        Option::None => exchange_replied(ph, None),
    };
    proof {
        if target == old(sys).echo_port && old(sys).echo_port != 0 {
            assert(sys.queue@ =~= old(sys).queue@);
        }
    }
    sys.release(reply_port);
    let ph = exchange_released(ph);
    proof {
        let ol = old(sys).live@;
        let mid = ol.push(reply_port);
        assert forall|p: u32| sys.live@.contains(p) == ol.contains(p) by {
            if p == reply_port {
                assert(!sys.live@.contains(p));
                assert(!ol.contains(p));
            } else {
                assert(sys.live@.contains(p) == mid.contains(p));
                assert(mid.contains(p) == ol.contains(p)) by {
                    if ol.contains(p) {
                        let j = choose|j: int| 0 <= j < ol.len() && ol[j] == p;
                        assert(mid[j] == p);
                    }
                    if mid.contains(p) {
                        let j = choose|j: int| 0 <= j < mid.len() && mid[j] == p;
                        assert(j < ol.len());
                    }
                }
            }
        }
        assert(same_live(sys.live@, old(sys).live@));
    }
    match ph {
        ExchangePhase::Done { reply } => reply,
        _ => None,
    }
}

/// Perform one exchange with the well-known service, resolving its endpoint
/// through the process-wide cache on first use.
pub fn message(sys: &mut PortSystem, cache: &mut PortCache, command: &str) -> (r: Option<String>)
    requires
        old(sys).wf(),
        old(sys).next_port < u32::MAX,
        old(cache).port < old(sys).next_port,
    ensures
        final(sys).wf(),
        same_live(final(sys).live@, old(sys).live@),
        final(sys).registered == old(sys).registered,
        final(sys).echo_port == old(sys).echo_port,
        ({
            let target = if old(cache).port != 0 {
                old(cache).port
            } else {
                old(sys).registered
            };
            &&& final(cache).port == target
            &&& (command@.len() == 0 || target == 0 ==> r is None)
            &&& (command@.len() != 0 && target != 0 && target == old(sys).echo_port ==> (r
                matches Some(s) && s@ == decode_from(encode_spec(command@), 0)))
            &&& (command@.len() != 0 && target != 0 && target != old(sys).echo_port ==> r is None)
        }),
{
    let target = cached_resolve(sys, cache);
    send_request(sys, target, command)
}

} // verus!
