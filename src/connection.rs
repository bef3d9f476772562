//! One connection's lifecycle: `Connecting`, then `Joined` a room or
//! `Closed`, and finally `Closed`.
use vstd::prelude::*;

use crate::registry::{
    holds_handle, join_admits, others_in, rooms_after_join, valid_rooms, JoinResult,
    RoomRegistry, CAPACITY,
};
use crate::target::{room_from_target, room_of};

verus! {

/// Where a connection stands.
#[derive(Debug, Clone)]
pub enum ConnState {
    Connecting,
    /// Member of the room with this key.
    Joined(String),
    Closed,
}

/// What the transport is to do once a connection has opened.
#[derive(Debug, Clone, Copy, PartialEq, Eq, Structural)]
pub enum OpenOutcome {
    /// The connection joined its room and stays open.
    Stay,
    /// The connection is to be closed with a policy-violation status.
    ClosePolicy,
}

/// The room a connection in state `s` belongs to, if any.
pub open spec fn room_of_state(s: ConnState) -> Option<Seq<char>> {
    match s {
        ConnState::Joined(k) => Some(k@),
        _ => None,
    }
}

/// The rooms after a connection in state `s` closes: its room, if it has
/// one, is dissolved; otherwise nothing changes.
pub open spec fn rooms_after_close(s: ConnState, rooms: Map<Seq<char>, Seq<u64>>) -> Map<
    Seq<char>,
    Seq<u64>,
> {
    match room_of_state(s) {
        Some(k) => rooms.remove(k),
        None => rooms,
    }
}

/// The handles to close with a normal status when connection `h` in state
/// `s` closes: the other members of its room.
pub open spec fn close_targets(s: ConnState, h: u64, rooms: Map<Seq<char>, Seq<u64>>) -> Seq<
    u64,
> {
    match room_of_state(s) {
        Some(k) => others_in(rooms, k, h),
        None => Seq::empty(),
    }
}

/// The handles a message from `h` in state `s` is forwarded to.
pub open spec fn message_targets(s: ConnState, h: u64, rooms: Map<Seq<char>, Seq<u64>>) -> Seq<
    u64,
> {
    match room_of_state(s) {
        Some(k) => others_in(rooms, k, h),
        None => Seq::empty(),
    }
}

/// Two connections that have both joined one room each reach exactly the
/// other with a message, and never themselves.
pub proof fn pair_exchange(
    rooms: Map<Seq<char>, Seq<u64>>,
    sa: ConnState,
    a: u64,
    sb: ConnState,
    b: u64,
)
    requires
        valid_rooms(rooms),
        a != b,
        room_of_state(sa) is Some,
        room_of_state(sb) == room_of_state(sa),
        rooms.contains_key(room_of_state(sa)->0),
        rooms[room_of_state(sa)->0].contains(a),
        rooms[room_of_state(sa)->0].contains(b),
    ensures
        message_targets(sa, a, rooms) == seq![b],
        message_targets(sb, b, rooms) == seq![a],
{
    let k = room_of_state(sa)->0;
    let s = rooms[k];
    let ia = choose|i: int| 0 <= i < s.len() && s[i] == a;
    let ib = choose|i: int| 0 <= i < s.len() && s[i] == b;
    assert(s.len() <= CAPACITY);
    assert(s.len() == 2);
    reveal_with_fuel(crate::registry::without, 3);
    assert(s.drop_last().drop_last() =~= Seq::<u64>::empty());
    if ia == 0 {
        assert(s.drop_last() =~= seq![a]);
    } else {
        assert(s.drop_last() =~= seq![b]);
    }
    assert(message_targets(sa, a, rooms) =~= seq![b]);
    assert(message_targets(sb, b, rooms) =~= seq![a]);
}

/// When one of two members of a room closes, the other is the one to be
/// closed, and the room is gone: the next join of its key starts it afresh.
pub proof fn departure_dissolves_room(
    rooms: Map<Seq<char>, Seq<u64>>,
    sa: ConnState,
    a: u64,
    b: u64,
    c: u64,
)
    requires
        valid_rooms(rooms),
        a != b,
        room_of_state(sa) is Some,
        rooms.contains_key(room_of_state(sa)->0),
        rooms[room_of_state(sa)->0].contains(a),
        rooms[room_of_state(sa)->0].contains(b),
    ensures
        close_targets(sa, a, rooms) == seq![b],
        !rooms_after_close(sa, rooms).contains_key(room_of_state(sa)->0),
        join_admits(rooms_after_close(sa, rooms), room_of_state(sa)->0),
        rooms_after_join(rooms_after_close(sa, rooms), room_of_state(sa)->0, c)[room_of_state(
            sa,
        )->0] == seq![c],
{
    pair_exchange(rooms, sa, a, sa, b);
}

/// Closing a connection that never joined a room changes no room and closes
/// no one.
pub proof fn close_without_room_is_inert(s: ConnState, h: u64, rooms: Map<Seq<char>, Seq<u64>>)
    requires
        !(s is Joined),
    ensures
        rooms_after_close(s, rooms) == rooms,
        close_targets(s, h, rooms) == Seq::<u64>::empty(),
{
}

/// Closing twice is closing once: the second close leaves the rooms as the
/// first left them and closes no one.
pub proof fn close_is_idempotent(s: ConnState, h: u64, rooms: Map<Seq<char>, Seq<u64>>)
    ensures
        rooms_after_close(ConnState::Closed, rooms_after_close(s, rooms)) == rooms_after_close(
            s,
            rooms,
        ),
        close_targets(ConnState::Closed, h, rooms_after_close(s, rooms)) == Seq::<u64>::empty(),
{
}

/// One accepted connection: its handle and where it stands.
pub struct Connection {
    pub handle: u64,
    pub state: ConnState,
}

impl Connection {
    /// A freshly accepted connection.
    pub fn new(handle: u64) -> (r: Self)
        ensures
            r.handle == handle,
            r.state is Connecting,
    {
        Connection { handle, state: ConnState::Connecting }
    }

    /// Opens the connection on `target`: joins the room it names, or asks
    /// for a policy close when it names none or the room is full.
    pub fn on_open(&mut self, rooms: &mut RoomRegistry, target: &str) -> (r: OpenOutcome)
        requires
            old(rooms).wf(),
            old(self).state is Connecting,
            !holds_handle(old(rooms)@, old(self).handle),
        ensures
            final(rooms).wf(),
            final(self).handle == old(self).handle,
            match room_of(target@) {
                None => {
                    &&& r == OpenOutcome::ClosePolicy
                    &&& final(self).state is Closed
                    &&& final(rooms)@ == old(rooms)@
                },
                Some(k) => if join_admits(old(rooms)@, k) {
                    &&& r == OpenOutcome::Stay
                    &&& room_of_state(final(self).state) == Some(k)
                    &&& final(rooms)@ == rooms_after_join(old(rooms)@, k, old(self).handle)
                } else {
                    &&& r == OpenOutcome::ClosePolicy
                    &&& final(self).state is Closed
                    &&& final(rooms)@ == old(rooms)@
                },
            },
    {
        match room_from_target(target) {
            None => {
                self.state = ConnState::Closed;
                OpenOutcome::ClosePolicy
            },
            Some(key) => {
                match rooms.join(key.as_str(), self.handle) {
                    JoinResult::Joined => {
                        self.state = ConnState::Joined(key);
                        OpenOutcome::Stay
                    },
                    JoinResult::Rejected => {
                        self.state = ConnState::Closed;
                        OpenOutcome::ClosePolicy
                    },
                }
            },
        }
    }

    /// The handles a message from this connection goes to: the other members
    /// of its room, in join order; none unless it has joined one.
    pub fn on_message(&self, rooms: &RoomRegistry) -> (r: Vec<u64>)
        requires
            rooms.wf(),
        ensures
            r@ == message_targets(self.state, self.handle, rooms@),
    {
        match &self.state {
            ConnState::Joined(key) => rooms.broadcast_targets(key.as_str(), self.handle),
            _ => Vec::new(),
        }
    }

    /// Closes the connection: leaves and dissolves its room, returning the
    /// other members, which the caller closes with a normal status. A
    /// connection that never joined, or has closed already, changes nothing.
    pub fn on_close(&mut self, rooms: &mut RoomRegistry) -> (r: Vec<u64>)
        requires
            old(rooms).wf(),
        ensures
            final(rooms).wf(),
            final(self).handle == old(self).handle,
            final(self).state is Closed,
            r@ == close_targets(old(self).state, old(self).handle, old(rooms)@),
            final(rooms)@ == rooms_after_close(old(self).state, old(rooms)@),
    {
        let r = match &self.state {
            ConnState::Joined(key) => rooms.leave(key.as_str(), self.handle),
            _ => Vec::new(),
        };
        self.state = ConnState::Closed;
        r
    }
}

} // verus!
