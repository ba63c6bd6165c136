//! Connection session: the rules followed by the two cooperating loops of
//! one accepted, upgraded connection.
//!
//! The egress loop dequeues the connection's own queue and writes each
//! payload to the transport in strict enqueue order; it stops when the queue
//! side closes or a write fails. The ingress loop reads inbound frames; a
//! close frame is the sole recognized termination signal, and all other
//! inbound content is discarded. Termination is a race between the two
//! loops: whichever stops first initiates teardown, which detaches this
//! session's own channel and runs one cleanup pass for its identity. There
//! is no retry and no keepalive: connections are ephemeral, and recovery is
//! the client's reconnection.

use vstd::prelude::*;
use crate::messages::MessageResponse;
use crate::registry::{spec_cleanup, spec_close, Registry};

verus! {

/// One inbound frame, as the ingress loop classifies it.
#[derive(Debug, Clone, Copy, PartialEq, Eq, Structural)]
pub enum InboundFrame {
    Text,
    Binary,
    Ping,
    Pong,
    Close,
}

/// Whether a loop keeps running after one step.
#[derive(Debug, Clone, Copy, PartialEq, Eq, Structural)]
pub enum Flow {
    Proceed,
    Stop,
}

/// What the egress loop does with one dequeue outcome.
#[derive(Debug, PartialEq)]
pub enum EgressStep {
    /// Write this payload to the transport.
    Write(MessageResponse),
    /// The queue's sending side is gone: stop and initiate teardown.
    Stop,
}

/// Ingress decision: a close frame is the sole termination signal; every
/// other inbound frame is received and discarded.
pub fn ingress_step(frame: &InboundFrame) -> (r: Flow)
    ensures
        r == Flow::Stop <==> *frame is Close,
{
    match frame {
        InboundFrame::Close => Flow::Stop,
        _ => Flow::Proceed,
    }
}

/// Egress decision on the next dequeued item: write it in enqueue order, or
/// stop once the queue side is closed.
pub fn egress_step(next: Option<MessageResponse>) -> (r: EgressStep)
    ensures
        match next {
            Some(m) => r == EgressStep::Write(m),
            None => r == EgressStep::Stop,
        },
{
    match next {
        Some(m) => EgressStep::Write(m),
        None => EgressStep::Stop,
    }
}

/// Egress decision after one transport write: keep going on success, stop on
/// failure. A failed write terminates only this session.
pub fn egress_write_result(ok: bool) -> (r: Flow)
    ensures
        r == Flow::Proceed <==> ok,
{
    if ok {
        Flow::Proceed
    } else {
        Flow::Stop
    }
}

/// Teardown, run by whichever loop stops first: detach this session's own
/// channel, then drop every channel of this identity whose receiving side is
/// gone. Sibling connections of the same identity are unaffected, as are all
/// other identities.
pub fn teardown(registry: &mut Registry, user: u128, conn: u64)
    requires
        old(registry).wf(),
    ensures
        final(registry).wf(),
        final(registry)@ == spec_cleanup(spec_close(old(registry)@, user, conn), user),
{
    registry.close(user, conn);
    registry.cleanup(user);
}

} // verus!
