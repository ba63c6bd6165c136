//! Connection registry: the shared mapping from an identity to the set of
//! that identity's live outbound channels.
//!
//! An entry is created lazily on an identity's first connect and is never
//! removed, even once its set becomes empty. A connection is removed from its
//! set by identity, never by position. `broadcast` enqueues the payload on
//! every open channel of the target identity and, in the same pass, drops
//! every channel whose receiving side is gone; it never blocks and never
//! fails. The model couples each channel's queue and liveness to the
//! registry, so that delivery order and cleanup are stated exactly. The
//! model is sequential: the concurrent map and the per-identity guarding
//! that serve it in a running process live outside the library, and what is
//! proved here is the effect of each operation, not their interleaving.

use vstd::prelude::*;
use crate::messages::{MessageResponse, MsgView};

verus! {

/// The mathematical value of one outbound channel: its identity, whether its
/// receiving side is still attached, and the queued payloads in enqueue
/// order.
pub ghost struct ConnView {
    pub conn_id: u64,
    pub open: bool,
    pub queue: Seq<MsgView>,
}

/// The mathematical value of the registry: each registered identity's
/// channels, in registration order.
pub type RegView = Map<u128, Seq<ConnView>>;

/// The channels of `u`: its entry when registered, empty otherwise.
pub open spec fn conns_of(r: RegView, u: u128) -> Seq<ConnView> {
    if r.dom().contains(u) {
        r[u]
    } else {
        Seq::empty()
    }
}

/// Some channel in `s` carries the identity `c`.
pub open spec fn has_conn_id(s: Seq<ConnView>, c: u64) -> bool {
    exists|i: int| 0 <= i < s.len() && (#[trigger] s[i]).conn_id == c
}

/// No two channels in `s` share an identity.
pub open spec fn distinct_conn_ids(s: Seq<ConnView>) -> bool {
    forall|i: int, j: int|
        #![trigger s[i], s[j]]
        0 <= i < j < s.len() ==> s[i].conn_id != s[j].conn_id
}

/// Registering appends a fresh open channel with an empty queue, creating the
/// entry on first use.
pub open spec fn spec_register(r: RegView, u: u128, c: u64) -> RegView {
    r.insert(u, conns_of(r, u).push(ConnView { conn_id: c, open: true, queue: Seq::empty() }))
}

/// The channels of `s` without the one carrying identity `c`.
pub open spec fn remove_conn(s: Seq<ConnView>, c: u64) -> Seq<ConnView>
    decreases s.len(),
{
    if s.len() == 0 {
        Seq::empty()
    } else {
        let rest = remove_conn(s.drop_last(), c);
        if s.last().conn_id == c {
            rest
        } else {
            rest.push(s.last())
        }
    }
}

/// Unregistering removes the matching channel by identity; a miss is a no-op.
pub open spec fn spec_unregister(r: RegView, u: u128, c: u64) -> RegView {
    if r.dom().contains(u) {
        r.insert(u, remove_conn(r[u], c))
    } else {
        r
    }
}

/// The channels of `s`, with the one carrying identity `c` marked closed.
pub open spec fn close_conns(s: Seq<ConnView>, c: u64) -> Seq<ConnView> {
    Seq::new(
        s.len(),
        |i: int|
            if s[i].conn_id == c {
                ConnView { open: false, ..s[i] }
            } else {
                s[i]
            },
    )
}

/// A transport close detaches the channel's receiving side.
pub open spec fn spec_close(r: RegView, u: u128, c: u64) -> RegView {
    if r.dom().contains(u) {
        r.insert(u, close_conns(r[u], c))
    } else {
        r
    }
}

/// The channel `c` with `m` enqueued at the back.
pub open spec fn delivered(c: ConnView, m: MsgView) -> ConnView {
    ConnView { queue: c.queue.push(m), ..c }
}

/// One fan-out pass over a channel set: every open channel receives `m` and
/// is kept in order; every closed channel is dropped.
pub open spec fn deliver_seq(s: Seq<ConnView>, m: MsgView) -> Seq<ConnView>
    decreases s.len(),
{
    if s.len() == 0 {
        Seq::empty()
    } else {
        let rest = deliver_seq(s.drop_last(), m);
        if s.last().open {
            rest.push(delivered(s.last(), m))
        } else {
            rest
        }
    }
}

/// Broadcasting to an unregistered identity is a no-op; otherwise one fan-out
/// pass over that identity's channels, and no other identity is touched.
pub open spec fn spec_broadcast(r: RegView, u: u128, m: MsgView) -> RegView {
    if r.dom().contains(u) {
        r.insert(u, deliver_seq(r[u], m))
    } else {
        r
    }
}

/// The channels of `s` whose receiving side is still attached, in order.
pub open spec fn open_conns(s: Seq<ConnView>) -> Seq<ConnView>
    decreases s.len(),
{
    if s.len() == 0 {
        Seq::empty()
    } else {
        let rest = open_conns(s.drop_last());
        if s.last().open {
            rest.push(s.last())
        } else {
            rest
        }
    }
}

/// A cleanup pass drops every closed channel of `u`.
pub open spec fn spec_cleanup(r: RegView, u: u128) -> RegView {
    if r.dom().contains(u) {
        r.insert(u, open_conns(r[u]))
    } else {
        r
    }
}

/// The channel set of `u` after its channel `c` hands out its front payload.
pub open spec fn pop_conns(s: Seq<ConnView>, c: u64) -> Seq<ConnView> {
    Seq::new(
        s.len(),
        |i: int|
            if s[i].conn_id == c && s[i].queue.len() > 0 {
                ConnView { queue: s[i].queue.drop_first(), ..s[i] }
            } else {
                s[i]
            },
    )
}

/// Dequeueing for the egress loop: the front payload of channel `c` leaves
/// its queue; nothing else changes.
pub open spec fn spec_pop(r: RegView, u: u128, c: u64) -> RegView {
    if r.dom().contains(u) {
        r.insert(u, pop_conns(r[u], c))
    } else {
        r
    }
}

/// One outbound channel as the registry owns it.
pub(crate) struct Connection {
    pub(crate) conn_id: u64,
    pub(crate) open: bool,
    pub(crate) queue: Vec<MessageResponse>,
}

impl View for Connection {
    type V = ConnView;

    closed spec fn view(&self) -> ConnView {
        ConnView {
            conn_id: self.conn_id,
            open: self.open,
            queue: self.queue@.map_values(|m: MessageResponse| m@),
        }
    }
}

/// One identity's entry: the identity and its channels in registration order.
pub(crate) struct UserConns {
    pub(crate) user: u128,
    pub(crate) conns: Vec<Connection>,
}

/// The channel views of one entry.
pub(crate) open spec fn entry_view(e: UserConns) -> Seq<ConnView> {
    e.conns@.map_values(|c: Connection| c@)
}

/// The index of the entry for `u`, when one exists.
pub(crate) open spec fn entry_index(s: Seq<UserConns>, u: u128) -> int {
    choose|i: int| 0 <= i < s.len() && (#[trigger] s[i]).user == u
}

/// Whether some entry carries identity `u`.
pub(crate) open spec fn has_entry(s: Seq<UserConns>, u: u128) -> bool {
    exists|i: int| 0 <= i < s.len() && (#[trigger] s[i]).user == u
}

/// The map denoted by an entry sequence whose identities are distinct.
pub(crate) open spec fn entries_view(s: Seq<UserConns>) -> RegView {
    Map::new(|u: u128| has_entry(s, u), |u: u128| entry_view(s[entry_index(s, u)]))
}

/// The identity → channels mapping, shared by every session and by the
/// message-creation workflow.
pub struct Registry {
    entries: Vec<UserConns>,
}

impl View for Registry {
    type V = RegView;

    closed spec fn view(&self) -> RegView {
        entries_view(self.entries@)
    }
}

/// No two entries carry the same identity.
pub(crate) open spec fn distinct_users(s: Seq<UserConns>) -> bool {
    forall|i: int, j: int|
        #![trigger s[i], s[j]]
        0 <= i < j < s.len() ==> s[i].user != s[j].user
}

/// With distinct identities, the entry at `i` is what the map holds for its
/// identity.
proof fn lemma_entries_view_at(s: Seq<UserConns>, i: int)
    requires
        distinct_users(s),
        0 <= i < s.len(),
    ensures
        entries_view(s).dom().contains(s[i].user),
        entries_view(s)[s[i].user] == entry_view(s[i]),
{
    assert(has_entry(s, s[i].user));
    let j = entry_index(s, s[i].user);
    assert(0 <= j < s.len() && s[j].user == s[i].user);
    assert(j == i);
}

/// An identity with no entry is outside the map's domain.
proof fn lemma_entries_view_absent(s: Seq<UserConns>, u: u128)
    requires
        forall|i: int| 0 <= i < s.len() ==> (#[trigger] s[i]).user != u,
    ensures
        !entries_view(s).dom().contains(u),
{
}

/// Replacing the entry at `i` with one for the same identity updates exactly
/// that identity's channels.
proof fn lemma_entries_view_update(s: Seq<UserConns>, i: int, e: UserConns)
    requires
        distinct_users(s),
        0 <= i < s.len(),
        e.user == s[i].user,
    ensures
        distinct_users(s.update(i, e)),
        entries_view(s.update(i, e)) == entries_view(s).insert(e.user, entry_view(e)),
{
    let s2 = s.update(i, e);
    assert forall|a: int, b: int|
        #![trigger s2[a], s2[b]]
        0 <= a < b < s2.len() implies s2[a].user != s2[b].user by {
        assert(s[a].user == s2[a].user);
        assert(s[b].user == s2[b].user);
    }
    let m1 = entries_view(s2);
    let m2 = entries_view(s).insert(e.user, entry_view(e));
    assert forall|u: u128| m1.dom().contains(u) <==> m2.dom().contains(u) by {
        if has_entry(s2, u) {
            let k = choose|k: int| 0 <= k < s2.len() && (#[trigger] s2[k]).user == u;
            if k != i {
                assert(s[k].user == u);
                assert(has_entry(s, u));
            }
        }
        if has_entry(s, u) {
            let k = choose|k: int| 0 <= k < s.len() && (#[trigger] s[k]).user == u;
            if k != i {
                assert(s2[k].user == u);
                assert(has_entry(s2, u));
            } else {
                assert(s2[i].user == e.user);
                assert(has_entry(s2, u));
            }
        }
        if u == e.user {
            assert(s2[i].user == u);
            assert(has_entry(s2, u));
        }
    }
    assert forall|u: u128| m1.dom().contains(u) implies m1[u] == m2[u] by {
        lemma_entries_view_at(s2, entry_index(s2, u));
        if u == e.user {
            lemma_entries_view_at(s2, i);
        } else {
            let k = entry_index(s2, u);
            assert(0 <= k < s2.len() && s2[k].user == u);
            assert(k != i);
            assert(s[k].user == u);
            lemma_entries_view_at(s, k);
            assert(s2[k] == s[k]);
            lemma_entries_view_at(s2, k);
        }
    }
    assert(m1 =~= m2);
}

/// Appending an entry for a fresh identity adds exactly that identity.
proof fn lemma_entries_view_push(s: Seq<UserConns>, e: UserConns)
    requires
        distinct_users(s),
        forall|i: int| 0 <= i < s.len() ==> (#[trigger] s[i]).user != e.user,
    ensures
        distinct_users(s.push(e)),
        entries_view(s.push(e)) == entries_view(s).insert(e.user, entry_view(e)),
{
    let s2 = s.push(e);
    assert forall|a: int, b: int|
        #![trigger s2[a], s2[b]]
        0 <= a < b < s2.len() implies s2[a].user != s2[b].user by {
        if b < s.len() {
            assert(s[a].user == s2[a].user);
            assert(s[b].user == s2[b].user);
        } else {
            assert(s2[b] == e);
            assert(s[a].user == s2[a].user);
        }
    }
    let m1 = entries_view(s2);
    let m2 = entries_view(s).insert(e.user, entry_view(e));
    assert forall|u: u128| m1.dom().contains(u) <==> m2.dom().contains(u) by {
        if has_entry(s2, u) {
            let k = choose|k: int| 0 <= k < s2.len() && (#[trigger] s2[k]).user == u;
            if k < s.len() {
                assert(s[k].user == u);
                assert(has_entry(s, u));
            }
        }
        if has_entry(s, u) {
            let k = choose|k: int| 0 <= k < s.len() && (#[trigger] s[k]).user == u;
            assert(s2[k].user == u);
            assert(has_entry(s2, u));
        }
        if u == e.user {
            assert(s2[s.len() as int].user == u);
            assert(has_entry(s2, u));
        }
    }
    assert forall|u: u128| m1.dom().contains(u) implies m1[u] == m2[u] by {
        if u == e.user {
            lemma_entries_view_at(s2, s.len() as int);
        } else {
            let k = entry_index(s2, u);
            assert(0 <= k < s2.len() && s2[k].user == u);
            assert(k < s.len());
            assert(s[k].user == u);
            lemma_entries_view_at(s, k);
            assert(s2[k] == s[k]);
            lemma_entries_view_at(s2, k);
        }
    }
    assert(m1 =~= m2);
}

impl Registry {
    /// Validity of the representation: entry identities are distinct, and no
    /// channel set holds two channels with the same identity.
    pub closed spec fn wf(&self) -> bool {
        &&& distinct_users(self.entries@)
        &&& forall|i: int|
            0 <= i < self.entries@.len() ==> distinct_conn_ids(
                entry_view(#[trigger] self.entries@[i]),
            )
    }

    /// An empty registry.
    pub fn new() -> (r: Self)
        ensures
            r.wf(),
            r@ == Map::<u128, Seq<ConnView>>::empty(),
    {
        let r = Registry { entries: Vec::new() };
        proof {
            assert forall|u: u128| !r@.dom().contains(u) by {
                lemma_entries_view_absent(r.entries@, u);
            }
            assert(r@ =~= Map::<u128, Seq<ConnView>>::empty());
        }
        r
    }

    /// The position of the entry for `user`, or the entry count when none
    /// exists.
    fn find_entry(&self, user: u128) -> (r: usize)
        ensures
            r <= self.entries@.len(),
            r < self.entries@.len() ==> self.entries@[r as int].user == user,
            forall|k: int| 0 <= k < r ==> (#[trigger] self.entries@[k]).user != user,
            r == self.entries@.len() ==> forall|k: int|
                0 <= k < self.entries@.len() ==> (#[trigger] self.entries@[k]).user != user,
    {
        let mut i: usize = 0;
        while i < self.entries.len()
            invariant
                i <= self.entries@.len(),
                forall|k: int| 0 <= k < i ==> (#[trigger] self.entries@[k]).user != user,
            decreases self.entries@.len() - i,
        {
            if self.entries[i].user == user {
                return i;
            }
            i = i + 1;
        }
        i
    }

    /// Append a fresh channel for `user`, creating the identity's entry on
    /// first use. Every other identity's channels are untouched. The channel
    /// identity must not already be present for this user: a channel is
    /// registered once, for the lifetime of its session.
    pub fn register(&mut self, user: u128, conn: u64)
        requires
            old(self).wf(),
            !has_conn_id(conns_of(old(self)@, user), conn),
        ensures
            final(self).wf(),
            final(self)@ == spec_register(old(self)@, user, conn),
    {
        let ghost s0 = self.entries@;
        let ghost cv = ConnView { conn_id: conn, open: true, queue: Seq::empty() };
        let nc = Connection { conn_id: conn, open: true, queue: Vec::new() };
        proof {
            assert(nc@.queue =~= Seq::<MsgView>::empty());
            assert(nc@ == cv);
        }
        let i = self.find_entry(user);
        if i < self.entries.len() {
            let mut e = self.entries.remove(i);
            proof {
                lemma_entries_view_at(s0, i as int);
                assert(conns_of(old(self)@, user) == entry_view(s0[i as int]));
            }
            let ghost oldcv = entry_view(e);
            e.conns.push(nc);
            proof {
                assert(entry_view(e) =~= oldcv.push(cv));
            }
            self.entries.insert(i, e);
            proof {
                assert(self.entries@ =~= s0.update(i as int, self.entries@[i as int]));
                let e2 = self.entries@[i as int];
                lemma_entries_view_update(s0, i as int, e2);
                assert(distinct_conn_ids(entry_view(e2)));
                assert forall|k: int|
                    0 <= k < self.entries@.len() implies distinct_conn_ids(
                    entry_view(#[trigger] self.entries@[k]),
                ) by {
                    if k != i {
                        assert(self.entries@[k] == s0[k]);
                    }
                }
            }
        } else {
            proof {
                lemma_entries_view_absent(s0, user);
                assert(conns_of(old(self)@, user) =~= Seq::<ConnView>::empty());
            }
            let mut conns: Vec<Connection> = Vec::new();
            conns.push(nc);
            let e = UserConns { user, conns };
            proof {
                assert(entry_view(e) =~= Seq::<ConnView>::empty().push(cv));
                assert(entry_view(e) =~= conns_of(old(self)@, user).push(cv));
            }
            self.entries.push(e);
            proof {
                lemma_entries_view_push(s0, self.entries@[s0.len() as int]);
                assert forall|k: int|
                    0 <= k < self.entries@.len() implies distinct_conn_ids(
                    entry_view(#[trigger] self.entries@[k]),
                ) by {
                    if k < s0.len() {
                        assert(self.entries@[k] == s0[k]);
                    }
                }
            }
        }
    }

    /// Remove the channel carrying identity `conn` from `user`'s set.
    /// Idempotent: a miss, or an unregistered identity, is a no-op.
    pub fn unregister(&mut self, user: u128, conn: u64)
        requires
            old(self).wf(),
        ensures
            final(self).wf(),
            final(self)@ == spec_unregister(old(self)@, user, conn),
    {
        let ghost s0 = self.entries@;
        let i = self.find_entry(user);
        if i == self.entries.len() {
            proof {
                lemma_entries_view_absent(s0, user);
            }
            return ;
        }
        let mut e = self.entries.remove(i);
        proof {
            lemma_entries_view_at(s0, i as int);
        }
        let ghost oldcv = entry_view(e);
        let ghost n = oldcv.len();
        let mut kept: Vec<Connection> = Vec::new();
        proof {
            assert(oldcv.subrange(0, n as int) =~= oldcv);
            assert(oldcv.subrange(0, 0).len() == 0);
            assert(kept@.map_values(|c: Connection| c@) =~= remove_conn(oldcv.subrange(0, 0), conn));
            assert(e.conns@.map_values(|c: Connection| c@) =~= oldcv.subrange(0, n as int));
        }
        while e.conns.len() > 0
            invariant
                n == oldcv.len(),
                e.user == user,
                e.conns@.len() <= n,
                e.conns@.map_values(|c: Connection| c@) == oldcv.subrange(
                    n - e.conns@.len(),
                    n as int,
                ),
                kept@.map_values(|c: Connection| c@) == remove_conn(
                    oldcv.subrange(0, n - e.conns@.len()),
                    conn,
                ),
                distinct_conn_ids(
                    kept@.map_values(|c: Connection| c@) + e.conns@.map_values(
                        |c: Connection| c@,
                    ),
                ),
            decreases e.conns@.len(),
        {
            let ghost k = n - e.conns@.len();
            let ghost keptv = kept@.map_values(|c: Connection| c@);
            let ghost remv = e.conns@.map_values(|c: Connection| c@);
            let ghost prevc = e.conns@;
            let c = e.conns.remove(0);
            proof {
                prevc.remove_ensures(0);
                assert(remv[0] == c@);
                assert(c@ == oldcv[k as int]);
                assert forall|j: int| 0 <= j < e.conns@.len() implies (#[trigger] e.conns@[j])@
                    == oldcv[k + 1 + j] by {
                    assert(e.conns@[j] == prevc[j + 1]);
                    assert(remv[j + 1] == oldcv[k + 1 + j]);
                }
                assert(e.conns@.map_values(|c: Connection| c@) =~= oldcv.subrange(
                    k + 1,
                    n as int,
                ));
                assert(oldcv.subrange(0, k + 1).drop_last() =~= oldcv.subrange(0, k as int));
                assert(oldcv.subrange(0, k + 1).last() == oldcv[k as int]);
            }
            if c.conn_id != conn {
                kept.push(c);
                proof {
                    assert(kept@.map_values(|c: Connection| c@) =~= keptv.push(oldcv[k as int]));
                    assert(kept@.map_values(|c: Connection| c@) + e.conns@.map_values(
                        |c: Connection| c@,
                    ) =~= keptv + remv);
                }
            } else {
                proof {
                    let nw = kept@.map_values(|c: Connection| c@) + e.conns@.map_values(
                        |c: Connection| c@,
                    );
                    let ow = keptv + remv;
                    assert forall|a: int, b: int|
                        #![trigger nw[a], nw[b]]
                        0 <= a < b < nw.len() implies nw[a].conn_id != nw[b].conn_id by {
                        let pa = if a < keptv.len() { a } else { a + 1 };
                        let pb = if b < keptv.len() { b } else { b + 1 };
                        assert(nw[a] == ow[pa]);
                        assert(nw[b] == ow[pb]);
                    }
                }
            }
        }
        proof {
            assert(oldcv.subrange(0, n as int) =~= oldcv);
            assert(kept@.map_values(|c: Connection| c@) == remove_conn(oldcv, conn));
            assert(kept@.map_values(|c: Connection| c@) + e.conns@.map_values(|c: Connection| c@)
                =~= kept@.map_values(|c: Connection| c@));
        }
        e.conns = kept;
        self.entries.insert(i, e);
        proof {
            assert(self.entries@ =~= s0.update(i as int, self.entries@[i as int]));
            let e2 = self.entries@[i as int];
            assert(entry_view(e2) == remove_conn(oldcv, conn));
            lemma_entries_view_update(s0, i as int, e2);
            assert forall|k: int|
                0 <= k < self.entries@.len() implies distinct_conn_ids(
                entry_view(#[trigger] self.entries@[k]),
            ) by {
                if k != i {
                    assert(self.entries@[k] == s0[k]);
                }
            }
        }
    }

    /// One fan-out pass for `user`: enqueue the payload on every open channel
    /// of that identity, and drop, in the same pass, every channel whose
    /// receiving side is gone. Never blocks, never fails, and never touches
    /// another identity's channels; an unregistered identity is a no-op.
    pub fn broadcast(&mut self, user: u128, payload: &MessageResponse)
        requires
            old(self).wf(),
        ensures
            final(self).wf(),
            final(self)@ == spec_broadcast(old(self)@, user, payload@),
    {
        let ghost s0 = self.entries@;
        let ghost m = payload@;
        let i = self.find_entry(user);
        if i == self.entries.len() {
            proof {
                lemma_entries_view_absent(s0, user);
            }
            return ;
        }
        let mut e = self.entries.remove(i);
        proof {
            lemma_entries_view_at(s0, i as int);
        }
        let ghost oldcv = entry_view(e);
        let ghost n = oldcv.len();
        let mut kept: Vec<Connection> = Vec::new();
        proof {
            assert(oldcv.subrange(0, n as int) =~= oldcv);
            assert(kept@.map_values(|c: Connection| c@) =~= deliver_seq(
                oldcv.subrange(0, 0),
                m,
            ));
            assert(e.conns@.map_values(|c: Connection| c@) =~= oldcv.subrange(0, n as int));
        }
        while e.conns.len() > 0
            invariant
                n == oldcv.len(),
                e.user == user,
                m == payload@,
                e.conns@.len() <= n,
                e.conns@.map_values(|c: Connection| c@) == oldcv.subrange(
                    n - e.conns@.len(),
                    n as int,
                ),
                kept@.map_values(|c: Connection| c@) == deliver_seq(
                    oldcv.subrange(0, n - e.conns@.len()),
                    m,
                ),
                distinct_conn_ids(
                    kept@.map_values(|c: Connection| c@) + e.conns@.map_values(
                        |c: Connection| c@,
                    ),
                ),
            decreases e.conns@.len(),
        {
            let ghost k = n - e.conns@.len();
            let ghost keptv = kept@.map_values(|c: Connection| c@);
            let ghost remv = e.conns@.map_values(|c: Connection| c@);
            let ghost prevc = e.conns@;
            let mut c = e.conns.remove(0);
            proof {
                prevc.remove_ensures(0);
                assert(remv[0] == c@);
                assert(c@ == oldcv[k as int]);
                assert forall|j: int| 0 <= j < e.conns@.len() implies (#[trigger] e.conns@[j])@
                    == oldcv[k + 1 + j] by {
                    assert(e.conns@[j] == prevc[j + 1]);
                    assert(remv[j + 1] == oldcv[k + 1 + j]);
                }
                assert(e.conns@.map_values(|c: Connection| c@) =~= oldcv.subrange(
                    k + 1,
                    n as int,
                ));
                assert(oldcv.subrange(0, k + 1).drop_last() =~= oldcv.subrange(0, k as int));
                assert(oldcv.subrange(0, k + 1).last() == oldcv[k as int]);
            }
            if c.open {
                let ghost cq = c@.queue;
                c.queue.push(payload.clone());
                proof {
                    assert(c@.queue =~= cq.push(m));
                    assert(c@ == delivered(oldcv[k as int], m));
                }
                kept.push(c);
                proof {
                    assert(kept@.map_values(|c: Connection| c@) =~= keptv.push(
                        delivered(oldcv[k as int], m),
                    ));
                    let nw = kept@.map_values(|c: Connection| c@) + e.conns@.map_values(
                        |c: Connection| c@,
                    );
                    let ow = keptv + remv;
                    assert(nw.len() == ow.len());
                    assert forall|a: int| 0 <= a < nw.len() implies (#[trigger] nw[a]).conn_id
                        == ow[a].conn_id by {
                        if a < keptv.len() {
                            assert(nw[a] == keptv[a]);
                        } else if a == keptv.len() {
                            assert(nw[a] == delivered(oldcv[k as int], m));
                            assert(ow[a] == remv[0]);
                        } else {
                            assert(nw[a] == e.conns@.map_values(|c: Connection| c@)[a - keptv.len()
                                - 1]);
                            assert(ow[a] == remv[a - keptv.len()]);
                        }
                    }
                    assert forall|a: int, b: int|
                        #![trigger nw[a], nw[b]]
                        0 <= a < b < nw.len() implies nw[a].conn_id != nw[b].conn_id by {
                        assert(nw[a].conn_id == ow[a].conn_id);
                        assert(nw[b].conn_id == ow[b].conn_id);
                    }
                }
            } else {
                proof {
                    let nw = kept@.map_values(|c: Connection| c@) + e.conns@.map_values(
                        |c: Connection| c@,
                    );
                    let ow = keptv + remv;
                    assert forall|a: int, b: int|
                        #![trigger nw[a], nw[b]]
                        0 <= a < b < nw.len() implies nw[a].conn_id != nw[b].conn_id by {
                        let pa = if a < keptv.len() { a } else { a + 1 };
                        let pb = if b < keptv.len() { b } else { b + 1 };
                        assert(nw[a] == ow[pa]);
                        assert(nw[b] == ow[pb]);
                    }
                }
            }
        }
        proof {
            assert(oldcv.subrange(0, n as int) =~= oldcv);
            assert(kept@.map_values(|c: Connection| c@) == deliver_seq(oldcv, m));
            assert(kept@.map_values(|c: Connection| c@) + e.conns@.map_values(|c: Connection| c@)
                =~= kept@.map_values(|c: Connection| c@));
        }
        e.conns = kept;
        self.entries.insert(i, e);
        proof {
            assert(self.entries@ =~= s0.update(i as int, self.entries@[i as int]));
            let e2 = self.entries@[i as int];
            assert(entry_view(e2) == deliver_seq(oldcv, m));
            lemma_entries_view_update(s0, i as int, e2);
            assert forall|k: int|
                0 <= k < self.entries@.len() implies distinct_conn_ids(
                entry_view(#[trigger] self.entries@[k]),
            ) by {
                if k != i {
                    assert(self.entries@[k] == s0[k]);
                }
            }
        }
    }

    /// One cleanup pass for `user`: drop every channel of that identity whose
    /// receiving side is gone. Sibling channels are untouched.
    pub fn cleanup(&mut self, user: u128)
        requires
            old(self).wf(),
        ensures
            final(self).wf(),
            final(self)@ == spec_cleanup(old(self)@, user),
    {
        let ghost s0 = self.entries@;
        let i = self.find_entry(user);
        if i == self.entries.len() {
            proof {
                lemma_entries_view_absent(s0, user);
            }
            return ;
        }
        let mut e = self.entries.remove(i);
        proof {
            lemma_entries_view_at(s0, i as int);
        }
        let ghost oldcv = entry_view(e);
        let ghost n = oldcv.len();
        let mut kept: Vec<Connection> = Vec::new();
        proof {
            assert(oldcv.subrange(0, n as int) =~= oldcv);
            assert(kept@.map_values(|c: Connection| c@) =~= open_conns(oldcv.subrange(0, 0)));
            assert(e.conns@.map_values(|c: Connection| c@) =~= oldcv.subrange(0, n as int));
        }
        while e.conns.len() > 0
            invariant
                n == oldcv.len(),
                e.user == user,
                e.conns@.len() <= n,
                e.conns@.map_values(|c: Connection| c@) == oldcv.subrange(
                    n - e.conns@.len(),
                    n as int,
                ),
                kept@.map_values(|c: Connection| c@) == open_conns(
                    oldcv.subrange(0, n - e.conns@.len()),
                ),
                distinct_conn_ids(
                    kept@.map_values(|c: Connection| c@) + e.conns@.map_values(
                        |c: Connection| c@,
                    ),
                ),
            decreases e.conns@.len(),
        {
            let ghost k = n - e.conns@.len();
            let ghost keptv = kept@.map_values(|c: Connection| c@);
            let ghost remv = e.conns@.map_values(|c: Connection| c@);
            let ghost prevc = e.conns@;
            let c = e.conns.remove(0);
            proof {
                prevc.remove_ensures(0);
                assert(remv[0] == c@);
                assert(c@ == oldcv[k as int]);
                assert forall|j: int| 0 <= j < e.conns@.len() implies (#[trigger] e.conns@[j])@
                    == oldcv[k + 1 + j] by {
                    assert(e.conns@[j] == prevc[j + 1]);
                    assert(remv[j + 1] == oldcv[k + 1 + j]);
                }
                assert(e.conns@.map_values(|c: Connection| c@) =~= oldcv.subrange(
                    k + 1,
                    n as int,
                ));
                assert(oldcv.subrange(0, k + 1).drop_last() =~= oldcv.subrange(0, k as int));
                assert(oldcv.subrange(0, k + 1).last() == oldcv[k as int]);
            }
            if c.open {
                kept.push(c);
                proof {
                    assert(kept@.map_values(|c: Connection| c@) =~= keptv.push(oldcv[k as int]));
                    assert(kept@.map_values(|c: Connection| c@) + e.conns@.map_values(
                        |c: Connection| c@,
                    ) =~= keptv + remv);
                }
            } else {
                proof {
                    let nw = kept@.map_values(|c: Connection| c@) + e.conns@.map_values(
                        |c: Connection| c@,
                    );
                    let ow = keptv + remv;
                    assert forall|a: int, b: int|
                        #![trigger nw[a], nw[b]]
                        0 <= a < b < nw.len() implies nw[a].conn_id != nw[b].conn_id by {
                        let pa = if a < keptv.len() { a } else { a + 1 };
                        let pb = if b < keptv.len() { b } else { b + 1 };
                        assert(nw[a] == ow[pa]);
                        assert(nw[b] == ow[pb]);
                    }
                }
            }
        }
        proof {
            assert(oldcv.subrange(0, n as int) =~= oldcv);
            assert(kept@.map_values(|c: Connection| c@) == open_conns(oldcv));
            assert(kept@.map_values(|c: Connection| c@) + e.conns@.map_values(|c: Connection| c@)
                =~= kept@.map_values(|c: Connection| c@));
        }
        e.conns = kept;
        self.entries.insert(i, e);
        proof {
            assert(self.entries@ =~= s0.update(i as int, self.entries@[i as int]));
            let e2 = self.entries@[i as int];
            assert(entry_view(e2) == open_conns(oldcv));
            lemma_entries_view_update(s0, i as int, e2);
            assert forall|k: int|
                0 <= k < self.entries@.len() implies distinct_conn_ids(
                entry_view(#[trigger] self.entries@[k]),
            ) by {
                if k != i {
                    assert(self.entries@[k] == s0[k]);
                }
            }
        }
    }

    /// The position of `conn` in `e.conns`, or the channel count on a miss.
    fn find_conn(e: &UserConns, conn: u64) -> (r: usize)
        ensures
            r <= e.conns@.len(),
            r < e.conns@.len() ==> entry_view(*e)[r as int].conn_id == conn,
            forall|k: int| 0 <= k < r ==> (#[trigger] entry_view(*e)[k]).conn_id != conn,
            r == e.conns@.len() ==> forall|k: int|
                0 <= k < e.conns@.len() ==> (#[trigger] entry_view(*e)[k]).conn_id != conn,
    {
        let mut k: usize = 0;
        while k < e.conns.len()
            invariant
                k <= e.conns@.len(),
                forall|a: int| 0 <= a < k ==> (#[trigger] entry_view(*e)[a]).conn_id != conn,
            decreases e.conns@.len() - k,
        {
            proof {
                assert(entry_view(*e)[k as int] == e.conns@[k as int]@);
            }
            if e.conns[k].conn_id == conn {
                return k;
            }
            k = k + 1;
        }
        k
    }

    /// Record that the transport of `user`'s channel `conn` has closed: its
    /// receiving side is gone, and the next fan-out or cleanup pass drops it.
    pub fn close(&mut self, user: u128, conn: u64)
        requires
            old(self).wf(),
        ensures
            final(self).wf(),
            final(self)@ == spec_close(old(self)@, user, conn),
    {
        let ghost s0 = self.entries@;
        let i = self.find_entry(user);
        if i == self.entries.len() {
            proof {
                lemma_entries_view_absent(s0, user);
            }
            return ;
        }
        let mut e = self.entries.remove(i);
        proof {
            lemma_entries_view_at(s0, i as int);
        }
        let ghost oldcv = entry_view(e);
        let k = Self::find_conn(&e, conn);
        if k < e.conns.len() {
            let ghost prevc = e.conns@;
            let mut c = e.conns.remove(k);
            c.open = false;
            proof {
                assert(c@ == ConnView { open: false, ..oldcv[k as int] });
            }
            e.conns.insert(k, c);
            proof {
                prevc.remove_ensures(k as int);
                assert(e.conns@ =~= prevc.update(k as int, e.conns@[k as int]));
                assert forall|j: int|
                    0 <= j < oldcv.len() implies entry_view(e)[j] == close_conns(
                    oldcv,
                    conn,
                )[j] by {
                    if j != k {
                        assert(entry_view(e)[j] == oldcv[j]);
                        assert(oldcv[j].conn_id != conn);
                    }
                }
                assert(entry_view(e) =~= close_conns(oldcv, conn));
            }
        } else {
            proof {
                assert(entry_view(e) =~= close_conns(oldcv, conn));
            }
        }
        self.entries.insert(i, e);
        proof {
            assert(self.entries@ =~= s0.update(i as int, self.entries@[i as int]));
            let e2 = self.entries@[i as int];
            assert(entry_view(e2) == close_conns(oldcv, conn));
            lemma_entries_view_update(s0, i as int, e2);
            assert forall|a: int, b: int|
                #![trigger entry_view(e2)[a], entry_view(e2)[b]]
                0 <= a < b < entry_view(e2).len() implies entry_view(e2)[a].conn_id != entry_view(
                e2,
            )[b].conn_id by {
                assert(entry_view(e2)[a].conn_id == oldcv[a].conn_id);
                assert(entry_view(e2)[b].conn_id == oldcv[b].conn_id);
            }
            assert forall|a: int|
                0 <= a < self.entries@.len() implies distinct_conn_ids(
                entry_view(#[trigger] self.entries@[a]),
            ) by {
                if a != i {
                    assert(self.entries@[a] == s0[a]);
                }
            }
        }
    }

    /// Hand the egress loop the next queued payload of `user`'s channel
    /// `conn`, in enqueue order; `None` when that channel's queue is empty or
    /// the channel is unknown.
    pub fn pop_next(&mut self, user: u128, conn: u64) -> (r: Option<MessageResponse>)
        requires
            old(self).wf(),
        ensures
            final(self).wf(),
            final(self)@ == spec_pop(old(self)@, user, conn),
            match r {
                Some(m) => exists|j: int|
                    {
                        &&& 0 <= j < conns_of(old(self)@, user).len()
                        &&& (#[trigger] conns_of(old(self)@, user)[j]).conn_id == conn
                        &&& conns_of(old(self)@, user)[j].queue.len() > 0
                        &&& m@ == conns_of(old(self)@, user)[j].queue[0]
                    },
                None => forall|j: int|
                    0 <= j < conns_of(old(self)@, user).len() && (#[trigger] conns_of(
                        old(self)@,
                        user,
                    )[j]).conn_id == conn ==> conns_of(old(self)@, user)[j].queue.len() == 0,
            },
    {
        let ghost s0 = self.entries@;
        let i = self.find_entry(user);
        if i == self.entries.len() {
            proof {
                lemma_entries_view_absent(s0, user);
                assert(conns_of(old(self)@, user) =~= Seq::<ConnView>::empty());
            }
            return None;
        }
        let mut e = self.entries.remove(i);
        proof {
            lemma_entries_view_at(s0, i as int);
        }
        let ghost oldcv = entry_view(e);
        let k = Self::find_conn(&e, conn);
        let mut result: Option<MessageResponse> = None;
        if k < e.conns.len() && e.conns[k].queue.len() > 0 {
            let ghost prevc = e.conns@;
            let mut c = e.conns.remove(k);
            let ghost prevq = c.queue@;
            let m = c.queue.remove(0);
            proof {
                prevq.remove_ensures(0);
                assert(m@ == oldcv[k as int].queue[0]);
                assert forall|j: int| 0 <= j < c.queue@.len() implies (#[trigger] c.queue@[j])@
                    == oldcv[k as int].queue[j + 1] by {
                    assert(c.queue@[j] == prevq[j + 1]);
                }
                assert(c@.queue =~= oldcv[k as int].queue.drop_first());
                assert(c@ == ConnView {
                    queue: oldcv[k as int].queue.drop_first(),
                    ..oldcv[k as int]
                });
            }
            e.conns.insert(k, c);
            proof {
                prevc.remove_ensures(k as int);
                assert(e.conns@ =~= prevc.update(k as int, e.conns@[k as int]));
                assert forall|j: int|
                    0 <= j < oldcv.len() implies entry_view(e)[j] == pop_conns(oldcv, conn)[j] by {
                    if j != k {
                        assert(entry_view(e)[j] == oldcv[j]);
                        assert(oldcv[j].conn_id != conn);
                    }
                }
                assert(entry_view(e) =~= pop_conns(oldcv, conn));
                assert(conns_of(old(self)@, user) == oldcv);
                assert((#[trigger] conns_of(old(self)@, user)[k as int]).conn_id == conn);
                assert(conns_of(old(self)@, user)[k as int].queue.len() > 0);
                assert(m@ == conns_of(old(self)@, user)[k as int].queue[0]);
            }
            result = Some(m);
        } else {
            proof {
                assert forall|j: int|
                    0 <= j < oldcv.len() implies entry_view(e)[j] == pop_conns(oldcv, conn)[j] by {
                    if j != k {
                        assert(oldcv[j].conn_id != conn || oldcv[j].queue.len() == 0);
                    }
                }
                assert(entry_view(e) =~= pop_conns(oldcv, conn));
                assert forall|j: int|
                    0 <= j < oldcv.len() && (#[trigger] oldcv[j]).conn_id
                    == conn implies oldcv[j].queue.len() == 0 by {
                    if j != k {
                        assert(oldcv[j].conn_id != conn);
                    }
                }
            }
        }
        self.entries.insert(i, e);
        proof {
            assert(self.entries@ =~= s0.update(i as int, self.entries@[i as int]));
            let e2 = self.entries@[i as int];
            assert(entry_view(e2) == pop_conns(oldcv, conn));
            lemma_entries_view_update(s0, i as int, e2);
            assert forall|a: int, b: int|
                #![trigger entry_view(e2)[a], entry_view(e2)[b]]
                0 <= a < b < entry_view(e2).len() implies entry_view(e2)[a].conn_id != entry_view(
                e2,
            )[b].conn_id by {
                assert(entry_view(e2)[a].conn_id == oldcv[a].conn_id);
                assert(entry_view(e2)[b].conn_id == oldcv[b].conn_id);
            }
            assert forall|a: int|
                0 <= a < self.entries@.len() implies distinct_conn_ids(
                entry_view(#[trigger] self.entries@[a]),
            ) by {
                if a != i {
                    assert(self.entries@[a] == s0[a]);
                }
            }
        }
        result
    }

    /// How many channels `user` currently has registered.
    pub fn conn_count(&self, user: u128) -> (r: usize)
        requires
            self.wf(),
        ensures
            r == conns_of(self@, user).len(),
    {
        let i = self.find_entry(user);
        if i == self.entries.len() {
            proof {
                lemma_entries_view_absent(self.entries@, user);
            }
            0
        } else {
            proof {
                lemma_entries_view_at(self.entries@, i as int);
            }
            self.entries[i].conns.len()
        }
    }

    /// Whether `user` has a channel carrying identity `conn`.
    pub fn has_connection(&self, user: u128, conn: u64) -> (r: bool)
        requires
            self.wf(),
        ensures
            r == has_conn_id(conns_of(self@, user), conn),
    {
        let i = self.find_entry(user);
        if i == self.entries.len() {
            proof {
                lemma_entries_view_absent(self.entries@, user);
            }
            return false;
        }
        proof {
            lemma_entries_view_at(self.entries@, i as int);
        }
        let k = Self::find_conn(&self.entries[i], conn);
        k < self.entries[i].conns.len()
    }

    /// Whether an entry exists for `user`. An entry, once created, persists
    /// even after its channel set becomes empty.
    pub fn is_registered(&self, user: u128) -> (r: bool)
        ensures
            r == self@.dom().contains(user),
    {
        let i = self.find_entry(user);
        proof {
            if i < self.entries@.len() {
                assert(has_entry(self.entries@, user));
            }
        }
        i < self.entries.len()
    }

}

/// One fan-out step over an appended channel: an open channel is kept, with
/// the payload enqueued, at the same relative position; a closed one is
/// dropped.
proof fn lemma_deliver_push(s: Seq<ConnView>, c: ConnView, m: MsgView)
    ensures
        c.open ==> deliver_seq(s.push(c), m) == deliver_seq(s, m).push(delivered(c, m)),
        !c.open ==> deliver_seq(s.push(c), m) == deliver_seq(s, m),
{
    assert(s.push(c).drop_last() =~= s);
    assert(s.push(c).last() == c);
}

/// Broadcasting to an identity with no registered channels changes nothing,
/// and never fails.
pub proof fn lemma_broadcast_no_connections(r: RegView, u: u128, m: MsgView)
    requires
        conns_of(r, u).len() == 0,
    ensures
        spec_broadcast(r, u, m) == r,
{
    if r.dom().contains(u) {
        assert(r[u] =~= Seq::<ConnView>::empty());
        assert(deliver_seq(r[u], m) =~= Seq::<ConnView>::empty());
        assert(deliver_seq(r[u], m) == r[u]);
        assert(spec_broadcast(r, u, m) =~= r);
    }
}

/// Two channels registered for one identity both observe every payload
/// broadcast to that identity, in broadcast-call order; a channel registered
/// under any other identity observes nothing.
pub proof fn lemma_register_broadcast_in_order(
    r0: RegView,
    u: u128,
    c1: u64,
    c2: u64,
    m1: MsgView,
    m2: MsgView,
)
    ensures
        ({
            let r1 = spec_register(spec_register(r0, u, c1), u, c2);
            let r2 = spec_broadcast(spec_broadcast(r1, u, m1), u, m2);
            let s = conns_of(r2, u);
            &&& s.len() >= 2
            &&& s[s.len() - 2] == ConnView { conn_id: c1, open: true, queue: seq![m1, m2] }
            &&& s[s.len() - 1] == ConnView { conn_id: c2, open: true, queue: seq![m1, m2] }
            &&& forall|w: u128| w != u ==> conns_of(r2, w) == conns_of(r0, w)
        }),
{
    let base = conns_of(r0, u);
    let cv1 = ConnView { conn_id: c1, open: true, queue: Seq::empty() };
    let cv2 = ConnView { conn_id: c2, open: true, queue: Seq::empty() };
    let r1 = spec_register(spec_register(r0, u, c1), u, c2);
    assert(conns_of(spec_register(r0, u, c1), u) == base.push(cv1));
    assert(conns_of(r1, u) == base.push(cv1).push(cv2));

    let rb1 = spec_broadcast(r1, u, m1);
    lemma_deliver_push(base.push(cv1), cv2, m1);
    lemma_deliver_push(base, cv1, m1);
    let d1 = delivered(cv1, m1);
    let d2 = delivered(cv2, m1);
    assert(conns_of(rb1, u) == deliver_seq(base, m1).push(d1).push(d2));

    let r2 = spec_broadcast(rb1, u, m2);
    lemma_deliver_push(deliver_seq(base, m1).push(d1), d2, m2);
    lemma_deliver_push(deliver_seq(base, m1), d1, m2);
    assert(conns_of(r2, u) == deliver_seq(deliver_seq(base, m1), m2).push(
        delivered(d1, m2),
    ).push(delivered(d2, m2)));
    assert(delivered(d1, m2).queue =~= seq![m1, m2]);
    assert(delivered(d2, m2).queue =~= seq![m1, m2]);
    assert(delivered(d1, m2) == ConnView { conn_id: c1, open: true, queue: seq![m1, m2] });
    assert(delivered(d2, m2) == ConnView { conn_id: c2, open: true, queue: seq![m1, m2] });
}

/// A fan-out pass never drops a payload destined for a channel that is
/// live when the pass runs: every open channel is kept, with the payload
/// enqueued.
proof fn lemma_deliver_keeps_open(s: Seq<ConnView>, m: MsgView)
    ensures
        forall|j: int|
            0 <= j < s.len() && (#[trigger] s[j]).open ==> exists|k: int|
                0 <= k < deliver_seq(s, m).len() && #[trigger] deliver_seq(s, m)[k] == delivered(
                    s[j],
                    m,
                ),
    decreases s.len(),
{
    if s.len() > 0 {
        let rest = s.drop_last();
        lemma_deliver_keeps_open(rest, m);
        let d = deliver_seq(s, m);
        let dr = deliver_seq(rest, m);
        assert forall|j: int| 0 <= j < s.len() && (#[trigger] s[j]).open implies exists|k: int|
            0 <= k < d.len() && #[trigger] d[k] == delivered(s[j], m) by {
            if j < s.len() - 1 {
                assert(rest[j] == s[j]);
                let k = choose|k: int| 0 <= k < dr.len() && #[trigger] dr[k] == delivered(
                    rest[j],
                    m,
                );
                assert(d[k] == delivered(s[j], m));
            } else {
                assert(d[d.len() - 1] == delivered(s[j], m));
            }
        }
    }
}

/// A broadcast never silently drops its payload for a connection that is
/// live when the pass runs: every open channel of the target identity comes
/// out of the pass with the payload at the back of its queue.
pub proof fn lemma_broadcast_reaches_every_live_connection(r: RegView, u: u128, m: MsgView)
    ensures
        forall|j: int|
            0 <= j < conns_of(r, u).len() && (#[trigger] conns_of(r, u)[j]).open ==> exists|k: int|
                0 <= k < conns_of(spec_broadcast(r, u, m), u).len() && #[trigger] conns_of(
                    spec_broadcast(r, u, m),
                    u,
                )[k] == delivered(conns_of(r, u)[j], m),
{
    if r.dom().contains(u) {
        lemma_deliver_keeps_open(r[u], m);
        assert(conns_of(spec_broadcast(r, u, m), u) == deliver_seq(r[u], m));
    }
}

/// After a channel's transport closes, one fan-out pass drops it: it cannot
/// be reached by that broadcast nor any later one, while every sibling
/// channel of the same identity that is still open receives the payload.
proof fn lemma_deliver_after_close(s: Seq<ConnView>, c: u64, m: MsgView)
    ensures
        ({
            let d = deliver_seq(close_conns(s, c), m);
            &&& forall|j: int| 0 <= j < d.len() ==> (#[trigger] d[j]).conn_id != c
            &&& forall|j: int|
                0 <= j < s.len() && (#[trigger] s[j]).open && s[j].conn_id != c ==> exists|k: int|
                    0 <= k < d.len() && #[trigger] d[k] == delivered(s[j], m)
        }),
    decreases s.len(),
{
    if s.len() > 0 {
        let rest = s.drop_last();
        lemma_deliver_after_close(rest, c, m);
        assert(close_conns(s, c).drop_last() =~= close_conns(rest, c));
        assert(close_conns(s, c).last() == if s.last().conn_id == c {
            ConnView { open: false, ..s.last() }
        } else {
            s.last()
        });
        let d = deliver_seq(close_conns(s, c), m);
        let dr = deliver_seq(close_conns(rest, c), m);
        assert forall|j: int|
            0 <= j < s.len() && (#[trigger] s[j]).open && s[j].conn_id != c implies exists|k: int|
            0 <= k < d.len() && #[trigger] d[k] == delivered(s[j], m) by {
            if j < s.len() - 1 {
                assert(rest[j] == s[j]);
                let k = choose|k: int| 0 <= k < dr.len() && #[trigger] dr[k] == delivered(
                    rest[j],
                    m,
                );
                assert(d[k] == delivered(s[j], m));
            } else {
                assert(d[d.len() - 1] == delivered(s[j], m));
            }
        }
    }
}

/// Once the transport of `user`'s channel `c` closes, the next fan-out pass
/// makes it unreachable, while each sibling channel of the same identity that
/// is still open receives the payload.
pub proof fn lemma_close_isolates_connection(r: RegView, u: u128, c: u64, m: MsgView)
    ensures
        ({
            let s0 = conns_of(r, u);
            let s2 = conns_of(spec_broadcast(spec_close(r, u, c), u, m), u);
            &&& forall|j: int| 0 <= j < s2.len() ==> (#[trigger] s2[j]).conn_id != c
            &&& forall|j: int|
                0 <= j < s0.len() && (#[trigger] s0[j]).open && s0[j].conn_id != c ==> exists|
                    k: int,
                |
                    0 <= k < s2.len() && #[trigger] s2[k] == delivered(s0[j], m)
        }),
{
    if r.dom().contains(u) {
        lemma_deliver_after_close(r[u], c, m);
        assert(conns_of(spec_broadcast(spec_close(r, u, c), u, m), u) == deliver_seq(
            close_conns(r[u], c),
            m,
        ));
    }
}

/// A cleanup pass after a close drops exactly the closed channels: the
/// closed channel is gone, and every sibling that is still open remains, with
/// its queue intact.
proof fn lemma_open_after_close(s: Seq<ConnView>, c: u64)
    ensures
        ({
            let d = open_conns(close_conns(s, c));
            &&& forall|j: int| 0 <= j < d.len() ==> (#[trigger] d[j]).conn_id != c
            &&& forall|j: int|
                0 <= j < s.len() && (#[trigger] s[j]).open && s[j].conn_id != c ==> exists|k: int|
                    0 <= k < d.len() && #[trigger] d[k] == s[j]
        }),
    decreases s.len(),
{
    if s.len() > 0 {
        let rest = s.drop_last();
        lemma_open_after_close(rest, c);
        assert(close_conns(s, c).drop_last() =~= close_conns(rest, c));
        assert(close_conns(s, c).last() == if s.last().conn_id == c {
            ConnView { open: false, ..s.last() }
        } else {
            s.last()
        });
        let d = open_conns(close_conns(s, c));
        let dr = open_conns(close_conns(rest, c));
        assert forall|j: int|
            0 <= j < s.len() && (#[trigger] s[j]).open && s[j].conn_id != c implies exists|k: int|
            0 <= k < d.len() && #[trigger] d[k] == s[j] by {
            if j < s.len() - 1 {
                assert(rest[j] == s[j]);
                let k = choose|k: int| 0 <= k < dr.len() && #[trigger] dr[k] == rest[j];
                assert(d[k] == s[j]);
            } else {
                assert(d[d.len() - 1] == s[j]);
            }
        }
    }
}

/// Once the transport of `user`'s channel `c` closes, one cleanup pass
/// removes it from the registry, while every sibling channel of the same
/// identity that is still open remains, queue intact.
pub proof fn lemma_cleanup_removes_closed(r: RegView, u: u128, c: u64)
    ensures
        ({
            let s0 = conns_of(r, u);
            let s2 = conns_of(spec_cleanup(spec_close(r, u, c), u), u);
            &&& forall|j: int| 0 <= j < s2.len() ==> (#[trigger] s2[j]).conn_id != c
            &&& forall|j: int|
                0 <= j < s0.len() && (#[trigger] s0[j]).open && s0[j].conn_id != c ==> exists|
                    k: int,
                |
                    0 <= k < s2.len() && #[trigger] s2[k] == s0[j]
        }),
{
    if r.dom().contains(u) {
        lemma_open_after_close(r[u], c);
        assert(conns_of(spec_cleanup(spec_close(r, u, c), u), u) == open_conns(
            close_conns(r[u], c),
        ));
    }
}

} // verus!

