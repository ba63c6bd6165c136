//! Message records and the message store.
//!
//! The store keeps every message record ordered by creation time, so that a
//! conversation listing is a plain selection. Mutations are permitted only to
//! the message's original sender; a mutation that matches no record owned by
//! the caller fails with the collapsed not-found-or-forbidden category and
//! leaves the store unchanged.

use vstd::prelude::*;
use crate::errors::ApiError;
use crate::ids::parsed_uuid;

verus! {

/// A message record as the caller and the push path see it.
#[derive(Debug, PartialEq)]
pub struct MessageResponse {
    pub id: u128,
    pub sender_id: u128,
    pub recipient_id: u128,
    pub content: String,
    /// Creation timestamp, seconds since the epoch.
    pub created_at: u64,
}

/// The mathematical value of a message record.
pub ghost struct MsgView {
    pub id: u128,
    pub sender_id: u128,
    pub recipient_id: u128,
    pub content: Seq<char>,
    pub created_at: u64,
}

impl View for MessageResponse {
    type V = MsgView;

    open spec fn view(&self) -> MsgView {
        MsgView {
            id: self.id,
            sender_id: self.sender_id,
            recipient_id: self.recipient_id,
            content: self.content@,
            created_at: self.created_at,
        }
    }
}

impl Clone for MessageResponse {
    fn clone(&self) -> (r: Self)
        ensures
            r == *self,
    {
        MessageResponse {
            id: self.id,
            sender_id: self.sender_id,
            recipient_id: self.recipient_id,
            content: self.content.clone(),
            created_at: self.created_at,
        }
    }
}

/// Request to create a message. The credential has already been resolved to
/// the caller's identity when the store is reached.
#[derive(Debug, PartialEq)]
pub struct CreateMessageRequest {
    pub token: String,
    pub recipient_id: String,
    pub content: String,
}

/// Request to list the conversation with another user.
#[derive(Debug, PartialEq)]
pub struct ListMessagesRequest {
    pub token: String,
    pub other_user_id: String,
}

/// Request to replace the content of an owned message.
#[derive(Debug, PartialEq)]
pub struct UpdateMessageRequest {
    pub token: String,
    pub message_id: String,
    pub content: String,
}

/// Request to delete an owned message.
#[derive(Debug, PartialEq)]
pub struct DeleteMessageRequest {
    pub token: String,
    pub message_id: String,
}

/// The mathematical value of the store: the records in storage order, and the
/// next id to assign.
pub ghost struct StoreView {
    pub msgs: Seq<MsgView>,
    pub next_id: u128,
}

/// Well-formedness of a store value: ids are distinct and below the next id
/// to assign, and records are ordered by creation time.
pub open spec fn store_wf(v: StoreView) -> bool {
    &&& forall|i: int, j: int|
        #![trigger v.msgs[i], v.msgs[j]]
        0 <= i < j < v.msgs.len() ==> v.msgs[i].id != v.msgs[j].id
    &&& forall|i: int| 0 <= i < v.msgs.len() ==> (#[trigger] v.msgs[i]).id < v.next_id
    &&& sorted_by_created(v.msgs)
}

/// The records are ordered by creation time, ascending.
pub open spec fn sorted_by_created(s: Seq<MsgView>) -> bool {
    forall|i: int, j: int|
        #![trigger s[i], s[j]]
        0 <= i < j < s.len() ==> s[i].created_at <= s[j].created_at
}

/// Where a record created at `t` is inserted: after every record created at
/// or before `t`.
pub open spec fn insert_pos(s: Seq<MsgView>, t: u64) -> int
    decreases s.len(),
{
    if s.len() == 0 {
        0
    } else if s.last().created_at <= t {
        s.len() as int
    } else {
        insert_pos(s.drop_last(), t)
    }
}

/// The record a successful creation adds and returns.
pub open spec fn created_view(
    v: StoreView,
    caller: u128,
    recipient: u128,
    content: Seq<char>,
    now: u64,
) -> MsgView {
    MsgView { id: v.next_id, sender_id: caller, recipient_id: recipient, content, created_at: now }
}

/// The failure a creation request is rejected with, if any.
pub open spec fn create_error(recipient_id: Seq<char>, content: Seq<char>) -> Option<ApiError> {
    if parsed_uuid(recipient_id) is None {
        Some(ApiError::InvalidRecipientId)
    } else if content.len() == 0 {
        Some(ApiError::EmptyContent)
    } else {
        None
    }
}

/// The failure a mutation request is rejected with before the store is
/// consulted, if any.
pub open spec fn update_error(message_id: Seq<char>, content: Seq<char>) -> Option<ApiError> {
    if parsed_uuid(message_id) is None {
        Some(ApiError::InvalidMessageId)
    } else if content.len() == 0 {
        Some(ApiError::EmptyContent)
    } else {
        None
    }
}

/// A record of a conversation between `a` and `b`, in either direction.
pub open spec fn between(m: MsgView, a: u128, b: u128) -> bool {
    (m.sender_id == a && m.recipient_id == b) || (m.sender_id == b && m.recipient_id == a)
}

/// The store owns every message record.
pub struct MessageStore {
    msgs: Vec<MessageResponse>,
    next_id: u128,
}

impl View for MessageStore {
    type V = StoreView;

    closed spec fn view(&self) -> StoreView {
        StoreView {
            msgs: self.msgs@.map_values(|m: MessageResponse| m@),
            next_id: self.next_id,
        }
    }
}

impl MessageStore {
    pub open spec fn wf(&self) -> bool {
        store_wf(self@)
    }

    /// An empty store; the first assigned id is 1.
    pub fn new() -> (s: Self)
        ensures
            s.wf(),
            s@.msgs == Seq::<MsgView>::empty(),
            s@.next_id == 1,
    {
        let s = MessageStore { msgs: Vec::new(), next_id: 1 };
        proof {
            assert(s@.msgs =~= Seq::<MsgView>::empty());
        }
        s
    }

    /// Whether the id space is exhausted, so that no further record can be
    /// assigned an id.
    pub fn at_id_capacity(&self) -> (r: bool)
        ensures
            r == (self@.next_id == u128::MAX),
    {
        self.next_id == u128::MAX
    }
}

/// Persist a new message from `caller`. The recipient identifier must parse
/// and the content must not be empty; the record is placed after every record
/// created at or before `now` and carries the next free id.
pub fn create_message(
    store: &mut MessageStore,
    caller: u128,
    req: &CreateMessageRequest,
    now: u64,
) -> (r: Result<MessageResponse, ApiError>)
    requires
        old(store).wf(),
        old(store)@.next_id < u128::MAX,
    ensures
        final(store).wf(),
        final(store)@.next_id >= old(store)@.next_id,
        match create_error(req.recipient_id@, req.content@) {
            Some(e) => r == Err::<MessageResponse, ApiError>(e) && final(store)@ == old(store)@,
            None => {
                let mv = created_view(
                    old(store)@,
                    caller,
                    parsed_uuid(req.recipient_id@)->Some_0,
                    req.content@,
                    now,
                );
                &&& r == Ok::<MessageResponse, ApiError>(r->Ok_0)
                &&& r->Ok_0@ == mv
                &&& final(store)@.msgs == old(store)@.msgs.insert(
                    insert_pos(old(store)@.msgs, now),
                    mv,
                )
                &&& final(store)@.next_id == old(store)@.next_id + 1
            },
        },
{
    let recipient = match crate::ids::parse_user_id(req.recipient_id.as_str()) {
        Some(u) => u,
        None => {
            return Err(ApiError::InvalidRecipientId);
        },
    };
    if req.content.as_str().is_empty() {
        return Err(ApiError::EmptyContent);
    }

    let ghost v0 = store@;
    let msg = MessageResponse {
        id: store.next_id,
        sender_id: caller,
        recipient_id: recipient,
        content: req.content.clone(),
        created_at: now,
    };

    // Find the insertion point: after every record created at or before now.
    let mut i: usize = store.msgs.len();
    proof {
        assert(v0.msgs.subrange(0, v0.msgs.len() as int) =~= v0.msgs);
    }
    while i > 0 && store.msgs[i - 1].created_at > now
        invariant
            i <= store.msgs.len(),
            *store == *old(store),
            store@ == v0,
            forall|j: int| i <= j < v0.msgs.len() ==> (#[trigger] v0.msgs[j]).created_at > now,
            insert_pos(v0.msgs, now) == insert_pos(v0.msgs.subrange(0, i as int), now),
        decreases i,
    {
        proof {
            assert(v0.msgs[i - 1] == store.msgs@[i - 1]@);
            assert(v0.msgs.subrange(0, i as int).drop_last() =~= v0.msgs.subrange(0, i - 1));
            assert(v0.msgs.subrange(0, i as int).last() == v0.msgs[i - 1]);
        }
        i = i - 1;
    }
    proof {
        if i > 0 {
            assert(v0.msgs.subrange(0, i as int).last() == v0.msgs[i - 1]);
            assert(v0.msgs[i - 1] == store.msgs@[i - 1]@);
            assert(insert_pos(v0.msgs.subrange(0, i as int), now) == i);
        } else {
            assert(insert_pos(v0.msgs.subrange(0, 0), now) == 0);
        }
        assert(insert_pos(v0.msgs, now) == i);
    }

    let response = msg.clone();
    store.msgs.insert(i, msg);
    store.next_id = store.next_id + 1;

    proof {
        let mv = created_view(v0, caller, recipient, req.content@, now);
        assert(store@.msgs =~= v0.msgs.insert(i as int, mv));
        // Well-formedness of the result.
        let s1 = store@.msgs;
        assert forall|a: int, b: int|
            #![trigger s1[a], s1[b]]
            0 <= a < b < s1.len() implies s1[a].id != s1[b].id && s1[a].created_at
            <= s1[b].created_at by {
            let pa = if a < i as int { a } else { a - 1 };
            let pb = if b < i as int { b } else { b - 1 };
            if a != i as int && b != i as int {
                assert(s1[a] == v0.msgs[pa]);
                assert(s1[b] == v0.msgs[pb]);
            } else if a == i as int {
                assert(s1[b] == v0.msgs[pb]);
                assert(pb >= i as int);
            } else {
                assert(s1[a] == v0.msgs[pa]);
                assert(pa < i as int);
                if i > 0 {
                    assert(v0.msgs[pa].created_at <= v0.msgs[i - 1].created_at);
                }
            }
        }
        assert forall|a: int| 0 <= a < s1.len() implies (#[trigger] s1[a]).id < store@.next_id by {
            if a != i as int {
                let pa = if a < i as int { a } else { a - 1 };
                assert(s1[a] == v0.msgs[pa]);
            }
        }
    }
    Ok(response)
}

/// Selecting never introduces a creation time above every source record's.
proof fn lemma_filter_created_bounded(s: Seq<MsgView>, p: spec_fn(MsgView) -> bool, t: u64)
    requires
        forall|k: int| 0 <= k < s.len() ==> (#[trigger] s[k]).created_at <= t,
    ensures
        forall|a: int| 0 <= a < s.filter(p).len() ==> (#[trigger] s.filter(p)[a]).created_at <= t,
    decreases s.len(),
{
    reveal(Seq::filter);
    if s.len() > 0 {
        let rest = s.drop_last();
        lemma_filter_created_bounded(rest, p, t);
        let f = s.filter(p);
        assert forall|a: int| 0 <= a < f.len() implies (#[trigger] f[a]).created_at <= t by {
            if p(s.last()) {
                if a < f.len() - 1 {
                    assert(f[a] == rest.filter(p)[a]);
                } else {
                    assert(f[a] == s.last());
                }
            } else {
                assert(f[a] == rest.filter(p)[a]);
            }
        }
    }
}

/// Selecting from a sequence ordered by creation time yields a sequence
/// ordered by creation time.
pub proof fn lemma_filter_preserves_sorted(s: Seq<MsgView>, p: spec_fn(MsgView) -> bool)
    requires
        sorted_by_created(s),
    ensures
        sorted_by_created(s.filter(p)),
    decreases s.len(),
{
    reveal(Seq::filter);
    if s.len() > 0 {
        let rest = s.drop_last();
        assert(sorted_by_created(rest));
        lemma_filter_preserves_sorted(rest, p);
        if p(s.last()) {
            let f = rest.filter(p).push(s.last());
            assert(s.filter(p) == f);
            lemma_filter_created_bounded(rest, p, s.last().created_at);
            assert forall|a: int, b: int|
                #![trigger f[a], f[b]]
                0 <= a < b < f.len() implies f[a].created_at <= f[b].created_at by {
                assert(f[a] == rest.filter(p)[a]);
                if b < f.len() - 1 {
                    assert(f[b] == rest.filter(p)[b]);
                } else {
                    assert(f[b] == s.last());
                }
            }
        }
    }
}

/// All messages of the conversation between the caller and the other user,
/// ordered by creation time ascending.
pub fn list_messages(store: &MessageStore, caller: u128, req: &ListMessagesRequest) -> (r: Result<
    Vec<MessageResponse>,
    ApiError,
>)
    requires
        store.wf(),
    ensures
        match parsed_uuid(req.other_user_id@) {
            None => r == Err::<Vec<MessageResponse>, ApiError>(ApiError::InvalidOtherUserId),
            Some(other) => {
                &&& r == Ok::<Vec<MessageResponse>, ApiError>(r->Ok_0)
                &&& r->Ok_0@.map_values(|m: MessageResponse| m@) == store@.msgs.filter(
                    |m: MsgView| between(m, caller, other),
                )
                &&& sorted_by_created(r->Ok_0@.map_values(|m: MessageResponse| m@))
            },
        },
{
    let other = match crate::ids::parse_user_id(req.other_user_id.as_str()) {
        Some(u) => u,
        None => {
            return Err(ApiError::InvalidOtherUserId);
        },
    };
    let ghost p = |m: MsgView| between(m, caller, other);
    let ghost vm = store@.msgs;

    let mut result: Vec<MessageResponse> = Vec::new();
    let mut i: usize = 0;
    proof {
        reveal(Seq::filter);
        assert(vm.subrange(0, 0).filter(p) =~= Seq::<MsgView>::empty());
        assert(result@.map_values(|m: MessageResponse| m@) =~= Seq::<MsgView>::empty());
    }
    while i < store.msgs.len()
        invariant
            i <= store.msgs.len(),
            vm == store@.msgs,
            store.msgs@.len() == vm.len(),
            p == (|m: MsgView| between(m, caller, other)),
            result@.map_values(|m: MessageResponse| m@) == vm.subrange(0, i as int).filter(p),
        decreases store.msgs.len() - i,
    {
        let m = &store.msgs[i];
        proof {
            reveal(Seq::filter);
            assert(vm[i as int] == store.msgs@[i as int]@);
            assert(vm.subrange(0, i + 1).drop_last() =~= vm.subrange(0, i as int));
            assert(vm.subrange(0, i + 1).last() == vm[i as int]);
        }
        if (m.sender_id == caller && m.recipient_id == other) || (m.sender_id == other
            && m.recipient_id == caller) {
            let c = m.clone();
            result.push(c);
            proof {
                reveal(Seq::filter);
                assert(p(vm[i as int]));
                assert(result@.map_values(|m: MessageResponse| m@) =~= vm.subrange(
                    0,
                    i + 1,
                ).filter(p));
            }
        } else {
            proof {
                reveal(Seq::filter);
                assert(!p(vm[i as int]));
                assert(vm.subrange(0, i + 1).filter(p) =~= vm.subrange(0, i as int).filter(p));
            }
        }
        i = i + 1;
    }
    proof {
        assert(vm.subrange(0, vm.len() as int) =~= vm);
        lemma_filter_preserves_sorted(vm, p);
    }
    Ok(result)
}

/// Whether some record with this id exists and is owned by `caller`.
pub open spec fn owned_match(s: Seq<MsgView>, mid: u128, caller: u128) -> bool {
    exists|i: int| 0 <= i < s.len() && (#[trigger] s[i]).id == mid && s[i].sender_id == caller
}

/// Replace the content of a message owned by the caller. Whether the message
/// does not exist or belongs to someone else, the failure is the same
/// collapsed category, and the store is unchanged.
pub fn update_message(store: &mut MessageStore, caller: u128, req: &UpdateMessageRequest) -> (r:
    Result<MessageResponse, ApiError>)
    requires
        old(store).wf(),
    ensures
        final(store).wf(),
        final(store)@.next_id == old(store)@.next_id,
        match update_error(req.message_id@, req.content@) {
            Some(e) => r == Err::<MessageResponse, ApiError>(e) && final(store)@ == old(store)@,
            None => {
                let mid = parsed_uuid(req.message_id@)->Some_0;
                let s = old(store)@.msgs;
                if owned_match(s, mid, caller) {
                    &&& r == Ok::<MessageResponse, ApiError>(r->Ok_0)
                    &&& exists|i: int|
                        {
                            &&& 0 <= i < s.len()
                            &&& (#[trigger] s[i]).id == mid
                            &&& s[i].sender_id == caller
                            &&& r->Ok_0@ == MsgView { content: req.content@, ..s[i] }
                            &&& final(store)@.msgs == s.update(
                                i,
                                MsgView { content: req.content@, ..s[i] },
                            )
                        }
                } else {
                    &&& r == Err::<MessageResponse, ApiError>(ApiError::NotFoundOrForbidden)
                    &&& final(store)@ == old(store)@
                }
            },
        },
{
    let mid = match crate::ids::parse_user_id(req.message_id.as_str()) {
        Some(u) => u,
        None => {
            return Err(ApiError::InvalidMessageId);
        },
    };
    if req.content.as_str().is_empty() {
        return Err(ApiError::EmptyContent);
    }

    let ghost s = store@.msgs;
    let mut j: usize = 0;
    while j < store.msgs.len()
        invariant
            j <= store.msgs.len(),
            *store == *old(store),
            store.wf(),
            s == store@.msgs,
            store.msgs@.len() == s.len(),
            parsed_uuid(req.message_id@) == Some(mid),
            req.content@.len() != 0,
            forall|k: int| 0 <= k < j ==> !((#[trigger] s[k]).id == mid && s[k].sender_id == caller),
        decreases store.msgs.len() - j,
    {
        proof {
            assert(s[j as int] == store.msgs@[j as int]@);
        }
        if store.msgs[j].id == mid && store.msgs[j].sender_id == caller {
            let mut m = store.msgs.remove(j);
            m.content = req.content.clone();
            let response = m.clone();
            store.msgs.insert(j, m);
            proof {
                let mv = MsgView { content: req.content@, ..s[j as int] };
                assert(store@.msgs =~= s.update(j as int, mv));
                assert(owned_match(s, mid, caller));
                assert forall|a: int, b: int|
                    #![trigger store@.msgs[a], store@.msgs[b]]
                    0 <= a < b < store@.msgs.len() implies store@.msgs[a].id != store@.msgs[b].id
                    && store@.msgs[a].created_at <= store@.msgs[b].created_at by {
                    assert(s[a].id == store@.msgs[a].id && s[a].created_at
                        == store@.msgs[a].created_at);
                    assert(s[b].id == store@.msgs[b].id && s[b].created_at
                        == store@.msgs[b].created_at);
                }
                assert forall|a: int| 0 <= a < store@.msgs.len() implies (
                #[trigger] store@.msgs[a]).id < store@.next_id by {
                    assert(s[a].id == store@.msgs[a].id);
                }
            }
            return Ok(response);
        }
        j = j + 1;
    }
    proof {
        assert(!owned_match(s, mid, caller));
    }
    Err(ApiError::NotFoundOrForbidden)
}

/// Delete a message owned by the caller. Deleting a message that is already
/// gone or that belongs to someone else fails with the same collapsed
/// category rather than reporting success.
pub fn delete_message(store: &mut MessageStore, caller: u128, req: &DeleteMessageRequest) -> (r:
    Result<bool, ApiError>)
    requires
        old(store).wf(),
    ensures
        final(store).wf(),
        final(store)@.next_id == old(store)@.next_id,
        match parsed_uuid(req.message_id@) {
            None => r == Err::<bool, ApiError>(ApiError::InvalidMessageId) && final(store)@
                == old(store)@,
            Some(mid) => {
                let s = old(store)@.msgs;
                if owned_match(s, mid, caller) {
                    &&& r == Ok::<bool, ApiError>(true)
                    &&& exists|i: int|
                        {
                            &&& 0 <= i < s.len()
                            &&& (#[trigger] s[i]).id == mid
                            &&& s[i].sender_id == caller
                            &&& final(store)@.msgs == s.remove(i)
                        }
                } else {
                    &&& r == Err::<bool, ApiError>(ApiError::NotFoundOrForbidden)
                    &&& final(store)@ == old(store)@
                }
            },
        },
{
    let mid = match crate::ids::parse_user_id(req.message_id.as_str()) {
        Some(u) => u,
        None => {
            return Err(ApiError::InvalidMessageId);
        },
    };

    let ghost s = store@.msgs;
    let mut j: usize = 0;
    while j < store.msgs.len()
        invariant
            j <= store.msgs.len(),
            *store == *old(store),
            store.wf(),
            s == store@.msgs,
            store.msgs@.len() == s.len(),
            parsed_uuid(req.message_id@) == Some(mid),
            forall|k: int| 0 <= k < j ==> !((#[trigger] s[k]).id == mid && s[k].sender_id == caller),
        decreases store.msgs.len() - j,
    {
        proof {
            assert(s[j as int] == store.msgs@[j as int]@);
        }
        if store.msgs[j].id == mid && store.msgs[j].sender_id == caller {
            store.msgs.remove(j);
            proof {
                assert(store@.msgs =~= s.remove(j as int));
                assert(owned_match(s, mid, caller));
                assert forall|a: int, b: int|
                    #![trigger store@.msgs[a], store@.msgs[b]]
                    0 <= a < b < store@.msgs.len() implies store@.msgs[a].id != store@.msgs[b].id
                    && store@.msgs[a].created_at <= store@.msgs[b].created_at by {
                    let pa = if a < j as int { a } else { a + 1 };
                    let pb = if b < j as int { b } else { b + 1 };
                    assert(store@.msgs[a] == s[pa]);
                    assert(store@.msgs[b] == s[pb]);
                }
                assert forall|a: int| 0 <= a < store@.msgs.len() implies (
                #[trigger] store@.msgs[a]).id < store@.next_id by {
                    let pa = if a < j as int { a } else { a + 1 };
                    assert(store@.msgs[a] == s[pa]);
                }
            }
            return Ok(true);
        }
        j = j + 1;
    }
    proof {
        assert(!owned_match(s, mid, caller));
    }
    Err(ApiError::NotFoundOrForbidden)
}

} // verus!

