//! Broadcast gateway: the single entry point through which the
//! message-creation workflow reaches the registry.
//!
//! Delivery is fire-and-forget: the caller never awaits a confirmation, a
//! failed or empty fan-out never fails the originating request, and the push
//! goes to the recipient only — the sender does not receive a live push of
//! their own message.

use vstd::prelude::*;
use crate::errors::ApiError;
use crate::messages::{
    create_error, create_message, created_view, insert_pos, CreateMessageRequest, MessageResponse,
    MessageStore,
};
use crate::ids::parsed_uuid;
use crate::registry::{conns_of, spec_broadcast, Registry};

verus! {

/// Deliver one payload to every open channel of `user_id`, best effort:
/// channels whose receiving side is gone are dropped in the same pass, no
/// other identity is touched, and a miss is a silent no-op.
pub fn deliver(registry: &mut Registry, user_id: u128, payload: &MessageResponse)
    requires
        old(registry).wf(),
    ensures
        final(registry).wf(),
        final(registry)@ == spec_broadcast(old(registry)@, user_id, payload@),
{
    registry.broadcast(user_id, payload);
}

/// The message-creation workflow: persist the message, then, on success
/// only, hand the stored record to the gateway targeted at the recipient.
/// A rejected request leaves both the store and the registry unchanged, and
/// no identity other than the recipient ever observes the payload.
pub fn create_and_deliver(
    store: &mut MessageStore,
    registry: &mut Registry,
    caller: u128,
    req: &CreateMessageRequest,
    now: u64,
) -> (r: Result<MessageResponse, ApiError>)
    requires
        old(store).wf(),
        old(store)@.next_id < u128::MAX,
        old(registry).wf(),
    ensures
        final(store).wf(),
        final(registry).wf(),
        match create_error(req.recipient_id@, req.content@) {
            Some(e) => {
                &&& r == Err::<MessageResponse, ApiError>(e)
                &&& final(store)@ == old(store)@
                &&& final(registry)@ == old(registry)@
            },
            None => {
                let mv = created_view(
                    old(store)@,
                    caller,
                    parsed_uuid(req.recipient_id@)->Some_0,
                    req.content@,
                    now,
                );
                &&& r == Ok::<MessageResponse, ApiError>(r->Ok_0)
                &&& r->Ok_0@ == mv
                &&& final(store)@.msgs == old(store)@.msgs.insert(
                    insert_pos(old(store)@.msgs, now),
                    mv,
                )
                &&& final(store)@.next_id == old(store)@.next_id + 1
                &&& final(registry)@ == spec_broadcast(old(registry)@, mv.recipient_id, mv)
                &&& forall|w: u128|
                    w != mv.recipient_id ==> conns_of(final(registry)@, w) == conns_of(
                        old(registry)@,
                        w,
                    )
            },
        },
{
    let created = create_message(store, caller, req, now);
    match created {
        Err(e) => Err(e),
        Ok(m) => {
            deliver(registry, m.recipient_id, &m);
            proof {
                assert forall|w: u128| w != m@.recipient_id implies conns_of(registry@, w)
                    == conns_of(old(registry)@, w) by {
                    if old(registry)@.dom().contains(m@.recipient_id) {
                        assert(registry@.dom().contains(w) == old(registry)@.dom().contains(w));
                    }
                }
            }
            Ok(m)
        },
    }
}

} // verus!
