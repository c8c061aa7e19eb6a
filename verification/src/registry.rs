//! The connection registry: the sole owner of the session table and of room
//! membership, plus the process-wide broadcast counter.
//!
//! The registry reacts to four operations — connect, disconnect, join and
//! relay — each of which runs to completion before the next (its caller
//! serializes them through a single mailbox). A session's outbound transport
//! is represented here only as an opaque handle token that the caller maps
//! back to a real connection: the registry is a lookup table, never the owner
//! of a connection's lifetime.

use vstd::prelude::*;

verus! {

/// One planned delivery of a relayed message: the recipient session and the
/// opaque handle token under which it registered.
#[derive(Clone, Copy, PartialEq, Eq, Structural, Debug)]
pub struct Delivery {
    pub to: u64,
    pub handle: u64,
}

/// The registry's state: the session table (id, handle) pairs, the rooms
/// (room id, member session ids), and the count of relayed broadcasts.
pub struct ChatServer {
    sessions: Vec<(u64, u64)>,
    rooms: Vec<(i32, Vec<u64>)>,
    broadcasts: u64,
}

/// Keys of a session table are pairwise distinct.
spec fn uniq_keys(s: Seq<(u64, u64)>) -> bool {
    forall|i: int, j: int|
        0 <= i < j < s.len() ==> (#[trigger] s[i]).0 != (#[trigger] s[j]).0
}

impl ChatServer {
    /// The session table maps `id` to `handle`.
    pub closed spec fn has_entry(self, id: u64, handle: u64) -> bool {
        self.sessions@.contains((id, handle))
    }

    /// `id` is present in the session table (under some handle).
    pub open spec fn connected(self, id: u64) -> bool {
        exists|h: u64| self.has_entry(id, h)
    }

    /// `id` is a member of `room`.
    pub closed spec fn in_room(self, room: i32, id: u64) -> bool {
        exists|i: int|
            0 <= i < self.rooms@.len() && (#[trigger] self.rooms@[i]).0 == room
                && self.rooms@[i].1@.contains(id)
    }

    /// The broadcast counter: how many relays have been processed.
    pub closed spec fn broadcast_count(self) -> u64 {
        self.broadcasts
    }

    /// Internal well-formedness: session ids are unique in the table, room
    /// ids are unique, each room's member list holds no duplicates, and a
    /// session id sits in at most one room at a time.
    pub closed spec fn wf(self) -> bool {
        &&& uniq_keys(self.sessions@)
        &&& forall|i: int, j: int|
            0 <= i < j < self.rooms@.len() ==> (#[trigger] self.rooms@[i]).0 != (
            #[trigger] self.rooms@[j]).0
        &&& forall|i: int|
            0 <= i < self.rooms@.len() ==> (#[trigger] self.rooms@[i]).1@.no_duplicates()
        &&& forall|i: int, j: int, x: u64|
            0 <= i < j < self.rooms@.len() ==> !(#[trigger] self.rooms@[i].1@.contains(x)
                && #[trigger] self.rooms@[j].1@.contains(x))
    }

    /// Every room member is also present in the session table. The registry
    /// itself does not enforce this (join never validates its argument); it
    /// holds as long as callers only join ids handed out by connect and not
    /// yet disconnected.
    pub open spec fn members_registered(self) -> bool {
        forall|room: i32, id: u64| self.in_room(room, id) ==> self.connected(id)
    }
}

/// What connect does: the fresh `id` maps to exactly `handle` afterwards
/// (overwriting any colliding entry), every other session and all room
/// memberships are untouched, and the counter does not move.
pub open spec fn connect_post(pre: ChatServer, post: ChatServer, id: u64, handle: u64) -> bool {
    &&& forall|h: u64| post.has_entry(id, h) <==> h == handle
    &&& forall|id2: u64, h: u64|
        id2 != id ==> (post.has_entry(id2, h) <==> pre.has_entry(id2, h))
    &&& forall|room: i32, id2: u64| post.in_room(room, id2) <==> pre.in_room(room, id2)
    &&& post.broadcast_count() == pre.broadcast_count()
}

impl ChatServer {
    /// A freshly started registry: no sessions, no rooms, counter at zero.
    pub fn new() -> (s: ChatServer)
        ensures
            s.wf(),
            s.broadcast_count() == 0,
            forall|id: u64, h: u64| !s.has_entry(id, h),
            forall|room: i32, id: u64| !s.in_room(room, id),
            s.members_registered(),
    {
        ChatServer { sessions: Vec::new(), rooms: Vec::new(), broadcasts: 0 }
    }

    /// Index of `id` in the session table, if present.
    fn find_session(&self, id: u64) -> (r: Option<usize>)
        ensures
            match r {
                Some(i) => i < self.sessions@.len() && self.sessions@[i as int].0 == id,
                None => !self.connected(id),
            },
    {
        let mut i: usize = 0;
        while i < self.sessions.len()
            invariant
                i <= self.sessions@.len(),
                forall|j: int| 0 <= j < i ==> (#[trigger] self.sessions@[j]).0 != id,
            decreases self.sessions@.len() - i,
        {
            if self.sessions[i].0 == id {
                return Some(i);
            }
            i += 1;
        }
        proof {
            assert forall|h: u64| !self.has_entry(id, h) by {
                if self.has_entry(id, h) {
                    let k = choose|k: int|
                        0 <= k < self.sessions@.len() && self.sessions@[k] == (id, h);
                    assert(self.sessions@[k].0 == id);
                }
            }
        }
        None
    }

    /// Index of `room` in the room list, if present.
    fn find_room(&self, room: i32) -> (r: Option<usize>)
        ensures
            match r {
                Some(i) => i < self.rooms@.len() && self.rooms@[i as int].0 == room,
                None => forall|i: int|
                    0 <= i < self.rooms@.len() ==> (#[trigger] self.rooms@[i]).0 != room,
            },
    {
        let mut i: usize = 0;
        while i < self.rooms.len()
            invariant
                i <= self.rooms@.len(),
                forall|j: int| 0 <= j < i ==> (#[trigger] self.rooms@[j]).0 != room,
            decreases self.rooms@.len() - i,
        {
            if self.rooms[i].0 == room {
                return Some(i);
            }
            i += 1;
        }
        None
    }

    /// Register a connection under a fresh random identifier and return that
    /// identifier. Identifiers are drawn from the full 64-bit space without a
    /// uniqueness check; on the (unchecked) collision the old entry is
    /// overwritten, exactly as a map insert would.
    pub fn connect(&mut self, handle: u64) -> (id: u64)
        requires
            old(self).wf(),
        ensures
            final(self).wf(),
            connect_post(*old(self), *final(self), id, handle),
    {
        let id = fresh_session_id();
        match self.find_session(id) {
            Some(i) => {
                self.sessions[i] = (id, handle);
                proof {
                    let s1 = old(self).sessions@;
                    let s2 = self.sessions@;
                    let ii = i as int;
                    assert(s2 == s1.update(ii, (id, handle)));
                    assert forall|h: u64| self.has_entry(id, h) implies h == handle by {
                        let k = choose|k: int| 0 <= k < s2.len() && s2[k] == (id, h);
                        if k != ii {
                            assert(s1[k] == s2[k]);
                            assert(s1[k].0 == id && s1[ii].0 == id);
                            assert(false);
                        }
                    }
                    assert(s2[ii] == (id, handle));
                    assert(self.has_entry(id, handle));
                    assert forall|id2: u64, h: u64| id2 != id implies (self.has_entry(id2, h)
                        <==> old(self).has_entry(id2, h)) by {
                        if self.has_entry(id2, h) {
                            let k = choose|k: int| 0 <= k < s2.len() && s2[k] == (id2, h);
                            assert(k != ii);
                            assert(s1[k] == s2[k]);
                        }
                        if old(self).has_entry(id2, h) {
                            let k = choose|k: int| 0 <= k < s1.len() && s1[k] == (id2, h);
                            assert(k != ii);
                            assert(s2[k] == s1[k]);
                        }
                    }
                }
            },
            None => {
                self.sessions.push((id, handle));
                proof {
                    let s1 = old(self).sessions@;
                    let s2 = self.sessions@;
                    let n = s1.len() as int;
                    assert(s2 == s1.push((id, handle)));
                    assert forall|j: int| 0 <= j < n implies (#[trigger] s1[j]).0 != id by {
                        if s1[j].0 == id {
                            assert(s1[j] == (id, s1[j].1));
                            assert(old(self).has_entry(id, s1[j].1));
                            assert(false);
                        }
                    }
                    assert(s2[n] == (id, handle));
                    assert(self.has_entry(id, handle));
                    assert forall|h: u64| self.has_entry(id, h) implies h == handle by {
                        let k = choose|k: int| 0 <= k < s2.len() && s2[k] == (id, h);
                        if k < n {
                            assert(s1[k] == s2[k]);
                            assert(false);
                        }
                    }
                    assert forall|id2: u64, h: u64| id2 != id implies (self.has_entry(id2, h)
                        <==> old(self).has_entry(id2, h)) by {
                        if self.has_entry(id2, h) {
                            let k = choose|k: int| 0 <= k < s2.len() && s2[k] == (id2, h);
                            assert(k != n);
                            assert(s1[k] == s2[k]);
                        }
                        if old(self).has_entry(id2, h) {
                            let k = choose|k: int| 0 <= k < s1.len() && s1[k] == (id2, h);
                            assert(s2[k] == s1[k]);
                        }
                    }
                }
            },
        }
        proof {
            assert forall|room: i32, id2: u64|
                self.in_room(room, id2) <==> old(self).in_room(room, id2) by {
                if self.in_room(room, id2) {
                    let i0 = choose|i0: int|
                        0 <= i0 < self.rooms@.len() && self.rooms@[i0].0 == room
                            && self.rooms@[i0].1@.contains(id2);
                    assert(old(self).rooms@[i0].0 == room && old(self).rooms@[i0].1@.contains(id2));
                }
                if old(self).in_room(room, id2) {
                    let i0 = choose|i0: int|
                        0 <= i0 < old(self).rooms@.len() && old(self).rooms@[i0].0 == room
                            && old(self).rooms@[i0].1@.contains(id2);
                    assert(self.rooms@[i0].0 == room && self.rooms@[i0].1@.contains(id2));
                }
            }
        }
        id
    }
}

/// What disconnect does: `id` leaves the session table and every room;
/// everything else, the counter included, stays as it was. Disconnecting an
/// unknown id is a no-op, not an error.
pub open spec fn disconnect_post(pre: ChatServer, post: ChatServer, id: u64) -> bool {
    &&& !post.connected(id)
    &&& forall|id2: u64, h: u64|
        id2 != id ==> (post.has_entry(id2, h) <==> pre.has_entry(id2, h))
    &&& forall|room: i32| !post.in_room(room, id)
    &&& forall|room: i32, id2: u64|
        id2 != id ==> (post.in_room(room, id2) <==> pre.in_room(room, id2))
    &&& post.broadcast_count() == pre.broadcast_count()
}

/// What join does: afterwards `id` is a member of exactly `room` (a join
/// always leaves every other room first), no other session's memberships
/// move, and neither the session table nor the counter changes. Join never
/// checks that `id` is a known session.
pub open spec fn join_post(pre: ChatServer, post: ChatServer, id: u64, room: i32) -> bool {
    &&& forall|r: i32| post.in_room(r, id) <==> r == room
    &&& forall|r: i32, id2: u64| id2 != id ==> (post.in_room(r, id2) <==> pre.in_room(r, id2))
    &&& forall|id2: u64, h: u64| post.has_entry(id2, h) <==> pre.has_entry(id2, h)
    &&& post.broadcast_count() == pre.broadcast_count()
}

/// What relay does: the broadcast counter advances by exactly one (whatever
/// the recipient count, including zero), nothing else in the registry moves,
/// and the planned deliveries are exactly the members of `room` other than
/// `sender` that are present in the session table — each at most once, each
/// under its registered handle. The sender itself is never a delivery target:
/// its own copy of the message is the caller's local echo, not a relay.
pub open spec fn relay_post(
    pre: ChatServer,
    post: ChatServer,
    sender: u64,
    room: i32,
    out: Seq<Delivery>,
) -> bool {
    &&& post.broadcast_count() == pre.broadcast_count() + 1
    &&& forall|id2: u64, h: u64| post.has_entry(id2, h) <==> pre.has_entry(id2, h)
    &&& forall|r: i32, id2: u64| post.in_room(r, id2) <==> pre.in_room(r, id2)
    &&& forall|k: int|
        0 <= k < out.len() ==> {
            &&& (#[trigger] out[k]).to != sender
            &&& pre.in_room(room, out[k].to)
            &&& pre.has_entry(out[k].to, out[k].handle)
        }
    &&& forall|id2: u64|
        (#[trigger] pre.in_room(room, id2) && id2 != sender && pre.connected(id2))
            ==> exists|k: int| 0 <= k < out.len() && (#[trigger] out[k]).to == id2
    &&& forall|k1: int, k2: int|
        0 <= k1 < k2 < out.len() ==> (#[trigger] out[k1]).to != (#[trigger] out[k2]).to
}

proof fn lemma_push_no_dup(s: Seq<u64>, x: u64)
    requires
        s.no_duplicates(),
        !s.contains(x),
    ensures
        s.push(x).no_duplicates(),
{
    assert forall|a: int, b: int|
        0 <= a < b < s.push(x).len() implies s.push(x)[a] != s.push(x)[b] by {
        if b == s.len() as int {
            assert(s.contains(s[a]));
        }
    }
}

impl ChatServer {
    /// Remove `id` from every room's member list, keeping the rooms
    /// themselves (an emptied room stays around: it is just an empty set),
    /// the session table and the counter.
    fn scrub_member(&mut self, id: u64)
        requires
            old(self).wf(),
        ensures
            final(self).wf(),
            final(self).sessions == old(self).sessions,
            final(self).broadcasts == old(self).broadcasts,
            final(self).rooms@.len() == old(self).rooms@.len(),
            forall|k: int|
                0 <= k < final(self).rooms@.len() ==> (#[trigger] final(self).rooms@[k]).0
                    == old(self).rooms@[k].0,
            forall|k: int, x: u64|
                0 <= k < final(self).rooms@.len() ==> (#[trigger] final(self).rooms@[k].1@.contains(
                    x,
                ) <==> (old(self).rooms@[k].1@.contains(x) && x != id)),
    {
        let mut new_rooms: Vec<(i32, Vec<u64>)> = Vec::new();
        let mut i: usize = 0;
        while i < self.rooms.len()
            invariant
                i <= self.rooms@.len(),
                new_rooms@.len() == i,
                forall|k: int|
                    0 <= k < i ==> (#[trigger] new_rooms@[k]).0 == self.rooms@[k].0,
                forall|k: int, x: u64|
                    0 <= k < i ==> (#[trigger] new_rooms@[k].1@.contains(x) <==> (
                    self.rooms@[k].1@.contains(x) && x != id)),
                forall|k: int|
                    0 <= k < i ==> (self.rooms@[k].1@.no_duplicates() ==> (
                    #[trigger] new_rooms@[k]).1@.no_duplicates()),
            decreases self.rooms@.len() - i,
        {
            let rid = self.rooms[i].0;
            let filtered = without_member(&self.rooms[i].1, id);
            new_rooms.push((rid, filtered));
            i += 1;
        }
        self.rooms = new_rooms;
        proof {
            assert forall|a: int, b: int, x: u64|
                0 <= a < b < self.rooms@.len() implies !(#[trigger] self.rooms@[a].1@.contains(x)
                && #[trigger] self.rooms@[b].1@.contains(x)) by {
                assert(!(old(self).rooms@[a].1@.contains(x)
                    && old(self).rooms@[b].1@.contains(x)));
            }
        }
    }

    /// Forget a session: drop its table entry and leave every room it was a
    /// member of. Both removals run unconditionally, so an id that was never
    /// connected (or joined without connecting) is scrubbed all the same.
    pub fn disconnect(&mut self, id: u64)
        requires
            old(self).wf(),
        ensures
            final(self).wf(),
            disconnect_post(*old(self), *final(self), id),
    {
        let new_sessions = without_session(&self.sessions, id);
        self.sessions = new_sessions;
        self.scrub_member(id);
        proof {
            assert forall|h: u64| !self.has_entry(id, h) by {}
            assert forall|room: i32| !self.in_room(room, id) by {
                if self.in_room(room, id) {
                    let k = choose|k: int|
                        0 <= k < self.rooms@.len() && self.rooms@[k].0 == room
                            && self.rooms@[k].1@.contains(id);
                    assert(self.rooms@[k].1@.contains(id));
                }
            }
            assert forall|room: i32, id2: u64|
                id2 != id implies (self.in_room(room, id2) <==> old(self).in_room(room, id2)) by {
                if self.in_room(room, id2) {
                    let k = choose|k: int|
                        0 <= k < self.rooms@.len() && self.rooms@[k].0 == room
                            && self.rooms@[k].1@.contains(id2);
                    assert(old(self).rooms@[k].0 == room);
                    assert(old(self).rooms@[k].1@.contains(id2));
                }
                if old(self).in_room(room, id2) {
                    let k = choose|k: int|
                        0 <= k < old(self).rooms@.len() && old(self).rooms@[k].0 == room
                            && old(self).rooms@[k].1@.contains(id2);
                    assert(self.rooms@[k].0 == room);
                    assert(self.rooms@[k].1@.contains(id2));
                }
            }
        }
    }

    /// Put `id` in `room` and in no other room: every membership `id` held
    /// before is removed first (by scanning all rooms), then `id` is added to
    /// `room`, creating the room on first join.
    pub fn join(&mut self, id: u64, room: i32)
        requires
            old(self).wf(),
        ensures
            final(self).wf(),
            join_post(*old(self), *final(self), id, room),
    {
        self.scrub_member(id);
        let ghost mid = *self;
        match self.find_room(room) {
            Some(j) => {
                let entry = &mut self.rooms[j];
                entry.1.push(id);
                proof {
                    let jj = j as int;
                    let r1 = mid.rooms@;
                    let r2 = self.rooms@;
                    assert(r2.len() == r1.len());
                    assert(forall|k: int| 0 <= k < r1.len() && k != jj ==> r2[k] == r1[k]);
                    assert(r2[jj].0 == r1[jj].0);
                    assert(r2[jj].1@ == r1[jj].1@.push(id));
                    assert forall|x: u64| #[trigger] r2[jj].1@.contains(x) <==> (
                    r1[jj].1@.contains(x) || x == id) by {
                        vstd::seq_lib::lemma_seq_contains_after_push(r1[jj].1@, id, x);
                    }
                    lemma_push_no_dup(r1[jj].1@, id);
                    self.lemma_join_in_room(mid, *old(self), id, room, jj);
                }
            },
            None => {
                let mut members: Vec<u64> = Vec::new();
                members.push(id);
                self.rooms.push((room, members));
                proof {
                    let jj = mid.rooms@.len() as int;
                    let r2 = self.rooms@;
                    assert(r2[jj].1@ =~= seq![id]);
                    assert forall|x: u64| #[trigger] r2[jj].1@.contains(x) implies x == id by {
                        let k = choose|k: int| 0 <= k < r2[jj].1@.len() && r2[jj].1@[k] == x;
                    }
                    assert(r2[jj].1@.contains(id)) by {
                        assert(r2[jj].1@[0] == id);
                    }
                    self.lemma_join_in_room(mid, *old(self), id, room, jj);
                }
            },
        }
    }

    /// Plan the fan-out of one relayed message: every member of `room` other
    /// than `sender` whose id is still in the session table gets one
    /// delivery under its registered handle; members that have no table
    /// entry are silently skipped (a disconnect racing a broadcast is a
    /// benign, expected condition). The broadcast counter moves up by one no
    /// matter how many deliveries come out. The message text itself stays
    /// with the caller, which sends one identical payload to every planned
    /// target.
    pub fn relay(&mut self, sender: u64, room: i32) -> (out: Vec<Delivery>)
        requires
            old(self).wf(),
            old(self).broadcast_count() < u64::MAX,
        ensures
            final(self).wf(),
            relay_post(*old(self), *final(self), sender, room, out@),
    {
        let mut out: Vec<Delivery> = Vec::new();
        match self.find_room(room) {
            Some(j) => {
                let ghost jj = j as int;
                let ghost members = self.rooms@[jj].1@;
                let mut k: usize = 0;
                while k < self.rooms[j].1.len()
                    invariant
                        self.wf(),
                        0 <= jj < self.rooms@.len(),
                        self.rooms@[jj].0 == room,
                        j == jj,
                        members == self.rooms@[jj].1@,
                        k <= members.len(),
                        forall|t: int|
                            0 <= t < out@.len() ==> {
                                &&& (#[trigger] out@[t]).to != sender
                                &&& members.contains(out@[t].to)
                                &&& self.has_entry(out@[t].to, out@[t].handle)
                            },
                        forall|t: int|
                            0 <= t < out@.len() ==> members.subrange(0, k as int).contains(
                                (#[trigger] out@[t]).to,
                            ),
                        forall|x: u64|
                            (members.subrange(0, k as int).contains(x) && x != sender
                                && self.connected(x)) ==> exists|t: int|
                                0 <= t < out@.len() && (#[trigger] out@[t]).to == x,
                        forall|t1: int, t2: int|
                            0 <= t1 < t2 < out@.len() ==> (#[trigger] out@[t1]).to != (
                            #[trigger] out@[t2]).to,
                    decreases members.len() - k,
                {
                    let ghost pre_sub = members.subrange(0, k as int);
                    proof {
                        assert(members.subrange(0, k as int + 1) =~= pre_sub.push(
                            members[k as int],
                        ));
                        assert forall|x: u64|
                            members.subrange(0, k as int + 1).contains(x) <==> (pre_sub.contains(x)
                                || x == members[k as int]) by {
                            vstd::seq_lib::lemma_seq_contains_after_push(
                                pre_sub,
                                members[k as int],
                                x,
                            );
                        }
                    }
                    let m = self.rooms[j].1[k];
                    if m != sender {
                        match self.find_session(m) {
                            Some(si) => {
                                let h = self.sessions[si].1;
                                let ghost out0 = out@;
                                out.push(Delivery { to: m, handle: h });
                                proof {
                                    assert(self.sessions@[si as int] == (m, h));
                                    assert(self.has_entry(m, h));
                                    assert(members.contains(m)) by {
                                        assert(members[k as int] == m);
                                    }
                                    assert forall|t1: int, t2: int|
                                        0 <= t1 < t2 < out@.len() implies (#[trigger] out@[t1]).to
                                        != (#[trigger] out@[t2]).to by {
                                        if t2 == out@.len() - 1 {
                                            assert(pre_sub.contains(out0[t1].to));
                                            if out0[t1].to == m {
                                                let q = choose|q: int|
                                                    0 <= q < pre_sub.len() && pre_sub[q] == m;
                                                assert(members[q] == members[k as int]);
                                                assert(false);
                                            }
                                        }
                                    }
                                    assert forall|t: int|
                                        0 <= t < out@.len() implies members.subrange(
                                        0,
                                        k as int + 1,
                                    ).contains((#[trigger] out@[t]).to) by {
                                        if t < out0.len() as int {
                                            assert(out@[t] == out0[t]);
                                            assert(pre_sub.contains(out0[t].to));
                                        } else {
                                            assert(out@[t].to == members[k as int]);
                                        }
                                        vstd::seq_lib::lemma_seq_contains_after_push(
                                            pre_sub,
                                            members[k as int],
                                            out@[t].to,
                                        );
                                    }
                                    assert forall|x: u64|
                                        (members.subrange(0, k as int + 1).contains(x) && x
                                            != sender && self.connected(x)) implies exists|t: int|
                                        0 <= t < out@.len() && (#[trigger] out@[t]).to == x by {
                                        if x == m {
                                            assert(out@[out0.len() as int].to == x);
                                        } else {
                                            assert(pre_sub.contains(x));
                                            let t0 = choose|t0: int|
                                                0 <= t0 < out0.len() && out0[t0].to == x;
                                            assert(out@[t0].to == x);
                                        }
                                    }
                                }
                            },
                            None => {
                                proof {
                                    assert forall|x: u64|
                                        (members.subrange(0, k as int + 1).contains(x) && x
                                            != sender && self.connected(x)) implies exists|t: int|
                                        0 <= t < out@.len() && (#[trigger] out@[t]).to == x by {
                                        if x != m {
                                            assert(pre_sub.contains(x));
                                        }
                                    }
                                    assert forall|t: int|
                                        0 <= t < out@.len() implies members.subrange(
                                        0,
                                        k as int + 1,
                                    ).contains((#[trigger] out@[t]).to) by {
                                        assert(pre_sub.contains(out@[t].to));
                                    }
                                }
                            },
                        }
                    } else {
                        proof {
                            assert forall|x: u64|
                                (members.subrange(0, k as int + 1).contains(x) && x != sender
                                    && self.connected(x)) implies exists|t: int|
                                0 <= t < out@.len() && (#[trigger] out@[t]).to == x by {
                                if x != m {
                                    assert(pre_sub.contains(x));
                                }
                            }
                            assert forall|t: int|
                                0 <= t < out@.len() implies members.subrange(0, k as int + 1).contains(
                                (#[trigger] out@[t]).to) by {
                                assert(pre_sub.contains(out@[t].to));
                            }
                        }
                    }
                    k += 1;
                }
                proof {
                    assert(members.subrange(0, members.len() as int) =~= members);
                    assert forall|x: u64| old(self).in_room(room, x) implies members.contains(
                        x,
                    ) by {
                        let i0 = choose|i0: int|
                            0 <= i0 < old(self).rooms@.len() && old(self).rooms@[i0].0 == room
                                && old(self).rooms@[i0].1@.contains(x);
                        if i0 != jj {
                            assert(self.rooms@[i0].0 == self.rooms@[jj].0);
                            assert(false);
                        }
                    }
                    assert forall|x: u64| members.contains(x) implies old(self).in_room(
                        room,
                        x,
                    ) by {
                        assert(old(self).rooms@[jj].0 == room && old(self).rooms@[jj].1@.contains(
                            x,
                        ));
                    }
                }
            },
            None => {
                proof {
                    assert forall|x: u64| !old(self).in_room(room, x) by {
                        if old(self).in_room(room, x) {
                            let i0 = choose|i0: int|
                                0 <= i0 < old(self).rooms@.len() && old(self).rooms@[i0].0 == room
                                    && old(self).rooms@[i0].1@.contains(x);
                            assert(self.rooms@[i0].0 != room);
                        }
                    }
                }
            },
        }
        self.broadcasts = self.broadcasts + 1;
        proof {
            assert forall|r: i32, id2: u64|
                self.in_room(r, id2) <==> old(self).in_room(r, id2) by {
                if self.in_room(r, id2) {
                    let i0 = choose|i0: int|
                        0 <= i0 < self.rooms@.len() && self.rooms@[i0].0 == r
                            && self.rooms@[i0].1@.contains(id2);
                    assert(old(self).rooms@[i0].0 == r && old(self).rooms@[i0].1@.contains(id2));
                }
                if old(self).in_room(r, id2) {
                    let i0 = choose|i0: int|
                        0 <= i0 < old(self).rooms@.len() && old(self).rooms@[i0].0 == r
                            && old(self).rooms@[i0].1@.contains(id2);
                    assert(self.rooms@[i0].0 == r && self.rooms@[i0].1@.contains(id2));
                }
            }
        }
        out
    }

    /// The room-membership clauses of `join_post`, shown from the shape both
    /// join branches leave behind: rooms agree with `mid` (the state after
    /// the scrub) everywhere except index `jj`, which holds `room` and gained
    /// exactly `id`.
    proof fn lemma_join_in_room(self, mid: ChatServer, pre: ChatServer, id: u64, room: i32, jj: int)
        requires
            mid.wf(),
            mid.sessions == pre.sessions,
            mid.broadcasts == pre.broadcasts,
            mid.rooms@.len() == pre.rooms@.len(),
            forall|k: int|
                0 <= k < mid.rooms@.len() ==> (#[trigger] mid.rooms@[k]).0 == pre.rooms@[k].0,
            forall|k: int, x: u64|
                0 <= k < mid.rooms@.len() ==> (#[trigger] mid.rooms@[k].1@.contains(x) <==> (
                pre.rooms@[k].1@.contains(x) && x != id)),
            self.sessions == mid.sessions,
            self.broadcasts == mid.broadcasts,
            0 <= jj < self.rooms@.len(),
            self.rooms@.len() == if jj < mid.rooms@.len() {
                mid.rooms@.len()
            } else {
                mid.rooms@.len() + 1
            },
            forall|k: int|
                0 <= k < mid.rooms@.len() && k != jj ==> #[trigger] self.rooms@[k]
                    == mid.rooms@[k],
            self.rooms@[jj].0 == room,
            jj < mid.rooms@.len() ==> self.rooms@[jj].0 == mid.rooms@[jj].0,
            forall|x: u64| #[trigger]
                self.rooms@[jj].1@.contains(x) <==> ((jj < mid.rooms@.len()
                    && mid.rooms@[jj].1@.contains(x)) || x == id),
            self.rooms@[jj].1@.no_duplicates(),
            jj == mid.rooms@.len() || mid.rooms@[jj].0 == room,
            jj == mid.rooms@.len() ==> forall|k: int|
                0 <= k < mid.rooms@.len() ==> (#[trigger] mid.rooms@[k]).0 != room,
        ensures
            self.wf(),
            join_post(pre, self, id, room),
    {
        assert forall|r: i32| self.in_room(r, id) <==> r == room by {
            if self.in_room(r, id) {
                let k = choose|k: int|
                    0 <= k < self.rooms@.len() && self.rooms@[k].0 == r
                        && self.rooms@[k].1@.contains(id);
                if k != jj {
                    assert(mid.rooms@[k].1@.contains(id));
                    assert(false);
                }
            }
            if r == room {
                assert(self.rooms@[jj].1@.contains(id));
                assert(self.in_room(r, id));
            }
        }
        assert forall|r: i32, id2: u64|
            id2 != id implies (self.in_room(r, id2) <==> pre.in_room(r, id2)) by {
            if self.in_room(r, id2) {
                let k = choose|k: int|
                    0 <= k < self.rooms@.len() && self.rooms@[k].0 == r
                        && self.rooms@[k].1@.contains(id2);
                if k == jj {
                    assert(jj < mid.rooms@.len() && mid.rooms@[jj].1@.contains(id2));
                    assert(pre.rooms@[jj].0 == r && pre.rooms@[jj].1@.contains(id2));
                } else {
                    assert(mid.rooms@[k].0 == r && mid.rooms@[k].1@.contains(id2));
                    assert(pre.rooms@[k].0 == r && pre.rooms@[k].1@.contains(id2));
                }
                assert(pre.in_room(r, id2));
            }
            if pre.in_room(r, id2) {
                let k = choose|k: int|
                    0 <= k < pre.rooms@.len() && pre.rooms@[k].0 == r
                        && pre.rooms@[k].1@.contains(id2);
                assert(mid.rooms@[k].0 == r && mid.rooms@[k].1@.contains(id2));
                if k == jj {
                    assert(self.rooms@[jj].1@.contains(id2));
                } else {
                    assert(self.rooms@[k].0 == r && self.rooms@[k].1@.contains(id2));
                }
                assert(self.in_room(r, id2));
            }
        }
        assert forall|a: int, b: int|
            0 <= a < b < self.rooms@.len() implies (#[trigger] self.rooms@[a]).0 != (
        #[trigger] self.rooms@[b]).0 by {
            if b < mid.rooms@.len() {
                assert(mid.rooms@[a].0 != mid.rooms@[b].0);
            } else {
                assert(mid.rooms@[a].0 != room);
            }
        }
        assert forall|k: int|
            0 <= k < self.rooms@.len() implies (#[trigger] self.rooms@[k]).1@.no_duplicates() by {
            if k != jj {
                assert(self.rooms@[k] == mid.rooms@[k]);
            }
        }
        assert forall|a: int, b: int, x: u64|
            0 <= a < b < self.rooms@.len() implies !(#[trigger] self.rooms@[a].1@.contains(x)
            && #[trigger] self.rooms@[b].1@.contains(x)) by {
            if self.rooms@[a].1@.contains(x) && self.rooms@[b].1@.contains(x) {
                if a != jj && b != jj {
                    assert(mid.rooms@[a].1@.contains(x) && mid.rooms@[b].1@.contains(x));
                } else {
                    let other: int = if a == jj {
                        b
                    } else {
                        a
                    };
                    assert(mid.rooms@[other].1@.contains(x));
                    assert(x != id);
                    assert(jj < mid.rooms@.len() && mid.rooms@[jj].1@.contains(x));
                    assert(false);
                }
            }
        }
    }
}

impl ChatServer {
    /// Resetting the chat subsystem is deliberately a no-op: it acknowledges
    /// the request and clears neither sessions, nor rooms, nor the counter.
    pub fn reset(&mut self)
        ensures
            *final(self) == *old(self),
    {
    }

    /// Current value of the broadcast counter, for the reporting endpoint.
    pub fn counter(&self) -> (n: u64)
        ensures
            n == self.broadcast_count(),
    {
        self.broadcasts
    }

    /// Whether `id` currently has a session table entry.
    pub fn is_connected(&self, id: u64) -> (b: bool)
        ensures
            b == self.connected(id),
    {
        match self.find_session(id) {
            Some(i) => {
                proof {
                    assert(self.sessions@[i as int] == (id, self.sessions@[i as int].1));
                    assert(self.has_entry(id, self.sessions@[i as int].1));
                }
                true
            },
            None => false,
        }
    }

    /// The handle token `id` registered under, if it is connected.
    pub fn handle_of(&self, id: u64) -> (r: Option<u64>)
        ensures
            match r {
                Some(h) => self.has_entry(id, h),
                None => !self.connected(id),
            },
    {
        match self.find_session(id) {
            Some(i) => {
                let h = self.sessions[i].1;
                proof {
                    assert(self.sessions@[i as int] == (id, h));
                }
                Some(h)
            },
            None => None,
        }
    }

    /// The members of `room`, as currently recorded (each id once, in table
    /// order); an unknown room reads as empty.
    pub fn room_members(&self, room: i32) -> (v: Vec<u64>)
        requires
            self.wf(),
        ensures
            forall|x: u64| #[trigger] v@.contains(x) <==> self.in_room(room, x),
            v@.no_duplicates(),
    {
        match self.find_room(room) {
            Some(j) => {
                let members = &self.rooms[j].1;
                let mut v: Vec<u64> = Vec::new();
                let mut k: usize = 0;
                while k < members.len()
                    invariant
                        k <= members@.len(),
                        v@ == members@.subrange(0, k as int),
                    decreases members@.len() - k,
                {
                    v.push(members[k]);
                    proof {
                        assert(v@ =~= members@.subrange(0, k as int + 1));
                    }
                    k += 1;
                }
                proof {
                    assert(v@ =~= members@);
                    let jj = j as int;
                    assert forall|x: u64| #[trigger] v@.contains(x) <==> self.in_room(
                        room,
                        x,
                    ) by {
                        if v@.contains(x) {
                            assert(self.rooms@[jj].0 == room && self.rooms@[jj].1@.contains(x));
                        }
                        if self.in_room(room, x) {
                            let i0 = choose|i0: int|
                                0 <= i0 < self.rooms@.len() && self.rooms@[i0].0 == room
                                    && self.rooms@[i0].1@.contains(x);
                            if i0 != jj {
                                assert(self.rooms@[i0].0 == self.rooms@[jj].0);
                                assert(false);
                            }
                        }
                    }
                }
                v
            },
            None => {
                let v: Vec<u64> = Vec::new();
                proof {
                    assert forall|x: u64| #[trigger] v@.contains(x) <==> self.in_room(
                        room,
                        x,
                    ) by {
                        if self.in_room(room, x) {
                            let i0 = choose|i0: int|
                                0 <= i0 < self.rooms@.len() && self.rooms@[i0].0 == room
                                    && self.rooms@[i0].1@.contains(x);
                            assert(self.rooms@[i0].0 != room);
                        }
                    }
                }
                v
            },
        }
    }
}

/// The decimal digits of `n`, most significant first.
pub open spec fn decimal(n: nat) -> Seq<u8>
    decreases n,
{
    if n < 10 {
        seq![(48 + n) as u8]
    } else {
        decimal(n / 10) + seq![(48 + n % 10) as u8]
    }
}

/// Render a counter value as plain ASCII decimal digits: the body the
/// read-only reporting endpoint answers with.
pub fn decimal_digits(n: u64) -> (out: Vec<u8>)
    ensures
        out@ == decimal(n as nat),
    decreases n,
{
    if n < 10 {
        let mut out: Vec<u8> = Vec::new();
        out.push(48 + (n as u8));
        proof {
            assert(out@ =~= decimal(n as nat));
        }
        out
    } else {
        let mut out = decimal_digits(n / 10);
        out.push(48 + ((n % 10) as u8));
        proof {
            assert(out@ =~= decimal(n as nat));
        }
        out
    }
}

/// Any single registry operation, whichever it was.
pub open spec fn registry_step(pre: ChatServer, post: ChatServer) -> bool {
    ||| exists|id: u64, h: u64| #[trigger] connect_post(pre, post, id, h)
    ||| exists|id: u64| #[trigger] disconnect_post(pre, post, id)
    ||| exists|id: u64, room: i32| #[trigger] join_post(pre, post, id, room)
    ||| exists|sender: u64, room: i32, out: Seq<Delivery>| #[trigger] relay_post(
        pre,
        post,
        sender,
        room,
        out,
    )
}

/// Join exclusivity: joining `room_a` and then `room_b` leaves the session a
/// member of `room_b` and of no other room — in particular not of `room_a`.
pub proof fn lemma_join_exclusivity(
    s0: ChatServer,
    s1: ChatServer,
    s2: ChatServer,
    id: u64,
    room_a: i32,
    room_b: i32,
)
    requires
        room_a != room_b,
        join_post(s0, s1, id, room_a),
        join_post(s1, s2, id, room_b),
    ensures
        s2.in_room(room_b, id),
        !s2.in_room(room_a, id),
{
}

/// Disconnect cleanup: after a disconnect the session is out of the table
/// and out of every room, however many rooms it had joined before.
pub proof fn lemma_disconnect_cleanup(s0: ChatServer, s1: ChatServer, id: u64)
    requires
        disconnect_post(s0, s1, id),
    ensures
        !s1.connected(id),
        forall|room: i32| !s1.in_room(room, id),
{
}

/// No self-delivery: a relay never plans a delivery back to its sender; the
/// sender's only copy is the local echo its own session produces.
pub proof fn lemma_no_self_delivery(
    s0: ChatServer,
    s1: ChatServer,
    sender: u64,
    room: i32,
    out: Seq<Delivery>,
)
    requires
        relay_post(s0, s1, sender, room, out),
    ensures
        forall|k: int| 0 <= k < out.len() ==> (#[trigger] out[k]).to != sender,
{
}

/// Counter monotonicity, one half: no registry operation ever lowers the
/// broadcast counter.
pub proof fn lemma_counter_monotonic(pre: ChatServer, post: ChatServer)
    requires
        registry_step(pre, post),
    ensures
        post.broadcast_count() >= pre.broadcast_count(),
{
}

/// Counter monotonicity, other half: a relay raises the counter by exactly
/// one, however many deliveries it planned (zero included); every other
/// operation leaves it unchanged.
pub proof fn lemma_relay_counter(
    s0: ChatServer,
    s1: ChatServer,
    sender: u64,
    room: i32,
    out: Seq<Delivery>,
)
    requires
        relay_post(s0, s1, sender, room, out),
    ensures
        s1.broadcast_count() == s0.broadcast_count() + 1,
{
}

/// Connect keeps every room member registered (it only adds a table entry).
pub proof fn lemma_connect_keeps_members_registered(
    pre: ChatServer,
    post: ChatServer,
    id: u64,
    handle: u64,
)
    requires
        pre.members_registered(),
        connect_post(pre, post, id, handle),
    ensures
        post.members_registered(),
{
    assert forall|room: i32, id2: u64| post.in_room(room, id2) implies post.connected(id2) by {
        if id2 == id {
            assert(post.has_entry(id, handle));
        } else {
            assert(pre.in_room(room, id2));
            let h = choose|h: u64| pre.has_entry(id2, h);
            assert(post.has_entry(id2, h));
        }
    }
}

/// Disconnect keeps every room member registered: the departing id leaves
/// the rooms and the table together.
pub proof fn lemma_disconnect_keeps_members_registered(pre: ChatServer, post: ChatServer, id: u64)
    requires
        pre.members_registered(),
        disconnect_post(pre, post, id),
    ensures
        post.members_registered(),
{
    assert forall|room: i32, id2: u64| post.in_room(room, id2) implies post.connected(id2) by {
        assert(id2 != id);
        assert(pre.in_room(room, id2));
        let h = choose|h: u64| pre.has_entry(id2, h);
        assert(post.has_entry(id2, h));
    }
}

/// Join keeps every room member registered, provided the joining id is
/// itself connected — join performs no such check of its own, so this is the
/// caller's obligation (a session joins only after its connect completed).
pub proof fn lemma_join_keeps_members_registered(
    pre: ChatServer,
    post: ChatServer,
    id: u64,
    room: i32,
)
    requires
        pre.members_registered(),
        pre.connected(id),
        join_post(pre, post, id, room),
    ensures
        post.members_registered(),
{
    assert forall|r: i32, id2: u64| post.in_room(r, id2) implies post.connected(id2) by {
        if id2 == id {
            let h = choose|h: u64| pre.has_entry(id, h);
            assert(post.has_entry(id, h));
        } else {
            assert(pre.in_room(r, id2));
            let h = choose|h: u64| pre.has_entry(id2, h);
            assert(post.has_entry(id2, h));
        }
    }
}

/// Relay keeps every room member registered (it changes only the counter).
pub proof fn lemma_relay_keeps_members_registered(
    pre: ChatServer,
    post: ChatServer,
    sender: u64,
    room: i32,
    out: Seq<Delivery>,
)
    requires
        pre.members_registered(),
        relay_post(pre, post, sender, room, out),
    ensures
        post.members_registered(),
{
    assert forall|r: i32, id2: u64| post.in_room(r, id2) implies post.connected(id2) by {
        assert(pre.in_room(r, id2));
        let h = choose|h: u64| pre.has_entry(id2, h);
        assert(post.has_entry(id2, h));
    }
}

/// Copy of a member list with every occurrence of `id` removed; order and
/// distinctness of the remaining members are kept.
fn without_member(members: &Vec<u64>, id: u64) -> (out: Vec<u64>)
    ensures
        forall|x: u64| #[trigger] out@.contains(x) <==> (members@.contains(x) && x != id),
        members@.no_duplicates() ==> out@.no_duplicates(),
{
    broadcast use vstd::seq_lib::group_seq_properties;

    let mut out: Vec<u64> = Vec::new();
    let mut i: usize = 0;
    while i < members.len()
        invariant
            i <= members@.len(),
            forall|x: u64| #[trigger] out@.contains(x) <==> (members@.subrange(0, i as int).contains(
                x,
            ) && x != id),
            members@.no_duplicates() ==> out@.no_duplicates(),
        decreases members@.len() - i,
    {
        let ghost pre = members@.subrange(0, i as int);
        proof {
            assert(members@.subrange(0, i as int + 1) =~= pre.push(members@[i as int]));
            assert forall|x: u64|
                members@.subrange(0, i as int + 1).contains(x) <==> (pre.contains(x) || x
                    == members@[i as int]) by {
                vstd::seq_lib::lemma_seq_contains_after_push(pre, members@[i as int], x);
            }
        }
        let m = members[i];
        if m != id {
            let ghost out0 = out@;
            out.push(m);
            proof {
                assert forall|x: u64| #[trigger] out@.contains(x) <==> (out0.contains(x) || x
                    == m) by {
                    vstd::seq_lib::lemma_seq_contains_after_push(out0, m, x);
                }
                if members@.no_duplicates() && out0.no_duplicates() {
                    assert(!out0.contains(m)) by {
                        if pre.contains(m) {
                            let j = choose|j: int| 0 <= j < pre.len() && pre[j] == m;
                            assert(members@[j] == members@[i as int]);
                            assert(false);
                        }
                    }
                    assert forall|a: int, b: int|
                        0 <= a < b < out@.len() implies out@[a] != out@[b] by {
                        if b == out@.len() - 1 {
                            assert(out0.contains(out0[a]));
                        }
                    }
                }
            }
        }
        i += 1;
    }
    proof {
        assert(members@.subrange(0, members@.len() as int) =~= members@);
    }
    out
}

/// Copy of a session table with the entry for `id` (if any) removed; the
/// other entries and the distinctness of their keys are kept.
fn without_session(sessions: &Vec<(u64, u64)>, id: u64) -> (out: Vec<(u64, u64)>)
    ensures
        forall|id2: u64, h: u64| #[trigger]
            out@.contains((id2, h)) <==> (sessions@.contains((id2, h)) && id2 != id),
        uniq_keys(sessions@) ==> uniq_keys(out@),
{
    broadcast use vstd::seq_lib::group_seq_properties;

    let mut out: Vec<(u64, u64)> = Vec::new();
    let mut i: usize = 0;
    while i < sessions.len()
        invariant
            i <= sessions@.len(),
            forall|id2: u64, h: u64| #[trigger]
                out@.contains((id2, h)) <==> (sessions@.subrange(0, i as int).contains((id2, h))
                    && id2 != id),
            forall|k: int|
                0 <= k < out@.len() ==> sessions@.subrange(0, i as int).contains(
                    #[trigger] out@[k],
                ),
            uniq_keys(sessions@) ==> uniq_keys(out@),
        decreases sessions@.len() - i,
    {
        let ghost pre = sessions@.subrange(0, i as int);
        proof {
            assert(sessions@.subrange(0, i as int + 1) =~= pre.push(sessions@[i as int]));
            assert forall|e: (u64, u64)|
                sessions@.subrange(0, i as int + 1).contains(e) <==> (pre.contains(e) || e
                    == sessions@[i as int]) by {
                vstd::seq_lib::lemma_seq_contains_after_push(pre, sessions@[i as int], e);
            }
        }
        let entry = sessions[i];
        if entry.0 != id {
            let ghost out0 = out@;
            out.push(entry);
            proof {
                assert forall|e: (u64, u64)| #[trigger] out@.contains(e) <==> (out0.contains(e)
                    || e == sessions@[i as int]) by {
                    vstd::seq_lib::lemma_seq_contains_after_push(out0, sessions@[i as int], e);
                }
                assert forall|k: int|
                    0 <= k < out@.len() implies sessions@.subrange(0, i as int + 1).contains(
                    #[trigger] out@[k]) by {
                    if k < out0.len() as int {
                        assert(out@[k] == out0[k]);
                        assert(pre.contains(out0[k]));
                    } else {
                        assert(out@[k] == sessions@[i as int]);
                    }
                    vstd::seq_lib::lemma_seq_contains_after_push(pre, sessions@[i as int], out@[k]);
                }
                if uniq_keys(sessions@) && uniq_keys(out0) {
                    assert forall|a: int, b: int|
                        0 <= a < b < out@.len() implies (#[trigger] out@[a]).0 != (
                    #[trigger] out@[b]).0 by {
                        if b == out@.len() - 1 {
                            assert(pre.contains(out0[a]));
                            let j = choose|j: int| 0 <= j < pre.len() && pre[j] == out0[a];
                            assert(sessions@[j] == out0[a]);
                            assert(sessions@[j].0 != sessions@[i as int].0);
                        }
                    }
                }
            }
        }
        i += 1;
    }
    proof {
        assert(sessions@.subrange(0, sessions@.len() as int) =~= sessions@);
    }
    out
}

/// Relies on rand::random: a session identifier drawn uniformly from the full
/// 64-bit space. Nothing is promised of the value — in particular, collisions
/// with identifiers already in the table are not ruled out.
#[verifier::external_body]
fn fresh_session_id() -> u64 {
    rand::random()
}

} // verus!
