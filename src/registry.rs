//! The room registry: which handles sit in which room.
use vstd::prelude::*;

verus! {

/// Largest number of members a room admits.
pub const CAPACITY: usize = 2;

/// Answer of the registry to a request to join a room.
#[derive(Debug, Clone, Copy, PartialEq, Eq, Structural)]
pub enum JoinResult {
    Joined,
    Rejected,
}

/// The handles of `s` other than `h`, in their order.
pub open spec fn without(s: Seq<u64>, h: u64) -> Seq<u64>
    decreases s.len(),
{
    if s.len() == 0 {
        Seq::empty()
    } else {
        let rest = without(s.drop_last(), h);
        if s.last() == h {
            rest
        } else {
            rest.push(s.last())
        }
    }
}

/// Every room is non-empty and within capacity, holds no handle twice, and
/// no handle sits in two rooms.
pub open spec fn valid_rooms(rooms: Map<Seq<char>, Seq<u64>>) -> bool {
    &&& forall|k: Seq<char>| #[trigger]
        rooms.contains_key(k) ==> 0 < rooms[k].len() <= CAPACITY && rooms[k].no_duplicates()
    &&& forall|k1: Seq<char>, k2: Seq<char>, h: u64|
        rooms.contains_key(k1) && rooms.contains_key(k2) && #[trigger] rooms[k1].contains(h)
            && #[trigger] rooms[k2].contains(h) ==> k1 == k2
}

/// Whether `h` is a member of some room.
pub open spec fn holds_handle(rooms: Map<Seq<char>, Seq<u64>>, h: u64) -> bool {
    exists|k: Seq<char>| rooms.contains_key(k) && #[trigger] rooms[k].contains(h)
}

/// Whether room `k` has a free place (an absent room has two).
pub open spec fn join_admits(rooms: Map<Seq<char>, Seq<u64>>, k: Seq<char>) -> bool {
    !rooms.contains_key(k) || rooms[k].len() < CAPACITY
}

/// The rooms after `h` asks to join `k`: appended when admitted, else unchanged.
pub open spec fn rooms_after_join(rooms: Map<Seq<char>, Seq<u64>>, k: Seq<char>, h: u64) -> Map<
    Seq<char>,
    Seq<u64>,
> {
    if !rooms.contains_key(k) {
        rooms.insert(k, seq![h])
    } else if rooms[k].len() < CAPACITY {
        rooms.insert(k, rooms[k].push(h))
    } else {
        rooms
    }
}

/// The members of room `k` other than `h`; empty when there is no such room.
pub open spec fn others_in(rooms: Map<Seq<char>, Seq<u64>>, k: Seq<char>, h: u64) -> Seq<u64> {
    if rooms.contains_key(k) {
        without(rooms[k], h)
    } else {
        Seq::empty()
    }
}

/// Joining preserves the registry's invariant, so no room ever holds more
/// than `CAPACITY` members, provided the joining handle is in no room yet.
pub proof fn join_keeps_valid(rooms: Map<Seq<char>, Seq<u64>>, k: Seq<char>, h: u64)
    requires
        valid_rooms(rooms),
        !holds_handle(rooms, h),
    ensures
        valid_rooms(rooms_after_join(rooms, k, h)),
{
    let after = rooms_after_join(rooms, k, h);
    if !rooms.contains_key(k) || rooms[k].len() < CAPACITY {
        let s = if rooms.contains_key(k) { rooms[k] } else { Seq::<u64>::empty() };
        let t = s.push(h);
        assert(after[k] == t);
        assert forall|x: u64| #[trigger] t.contains(x) implies s.contains(x) || x == h by {
            let j = choose|j: int| 0 <= j < t.len() && t[j] == x;
            if j < s.len() {
                assert(s[j] == x);
            }
        }
        assert(!s.contains(h));
        assert(t.no_duplicates()) by {
            assert forall|a: int, b: int| 0 <= a < t.len() && 0 <= b < t.len() && a != b
                implies t[a] != t[b] by {
                if a < s.len() && b < s.len() {
                    assert(s[a] != s[b]);
                } else if a < s.len() {
                    assert(s.contains(t[a]));
                } else if b < s.len() {
                    assert(s.contains(t[b]));
                }
            }
        }
        assert forall|k1: Seq<char>, k2: Seq<char>, x: u64|
            after.contains_key(k1) && after.contains_key(k2) && #[trigger] after[k1].contains(x)
                && #[trigger] after[k2].contains(x) implies k1 == k2 by {
            if k1 != k && k2 != k {
                assert(rooms[k1].contains(x) && rooms[k2].contains(x));
            } else if k1 == k && k2 != k {
                assert(rooms[k2].contains(x));
                if x == h {
                    assert(holds_handle(rooms, h));
                } else {
                    assert(s.contains(x));
                }
            } else if k2 == k && k1 != k {
                assert(rooms[k1].contains(x));
                if x == h {
                    assert(holds_handle(rooms, h));
                } else {
                    assert(s.contains(x));
                }
            }
        }
    }
}

/// A room at capacity turns away any further join and keeps its members.
pub proof fn full_room_rejects(rooms: Map<Seq<char>, Seq<u64>>, k: Seq<char>, h: u64)
    requires
        valid_rooms(rooms),
        rooms.contains_key(k),
        rooms[k].len() == CAPACITY,
    ensures
        !join_admits(rooms, k),
        rooms_after_join(rooms, k, h) == rooms,
{
}

struct Room {
    key: String,
    members: Vec<u64>,
}

/// Map from room key to the handles in that room, in join order.
pub struct RoomRegistry {
    rooms: Vec<Room>,
    model: Ghost<Map<Seq<char>, Seq<u64>>>,
}

impl View for RoomRegistry {
    type V = Map<Seq<char>, Seq<u64>>;

    closed spec fn view(&self) -> Map<Seq<char>, Seq<u64>> {
        self.model@
    }
}

fn others(members: &Vec<u64>, h: u64) -> (r: Vec<u64>)
    ensures
        r@ == without(members@, h),
{
    let mut r: Vec<u64> = Vec::new();
    let mut i: usize = 0;
    while i < members.len()
        invariant
            i <= members@.len(),
            r@ == without(members@.subrange(0, i as int), h),
        decreases members@.len() - i,
    {
        assert(members@.subrange(0, i + 1).drop_last() =~= members@.subrange(0, i as int));
        if members[i] != h {
            r.push(members[i]);
        }
        i = i + 1;
    }
    assert(members@.subrange(0, members@.len() as int) =~= members@);
    r
}

impl RoomRegistry {
    /// The rows agree with the model: keys are distinct, each row is the
    /// model's entry for its key, and each key of the model has a row.
    pub closed spec fn consistent(&self) -> bool {
        &&& forall|i: int, j: int|
            0 <= i < j < self.rooms@.len() ==> #[trigger] self.rooms@[i].key@
                != #[trigger] self.rooms@[j].key@
        &&& forall|i: int|
            0 <= i < self.rooms@.len() ==> self.model@.contains_key(#[trigger] self.rooms@[i].key@)
                && self.model@[self.rooms@[i].key@] == self.rooms@[i].members@
        &&& forall|k: Seq<char>|
            #[trigger] self.model@.contains_key(k) ==> exists|i: int|
                0 <= i < self.rooms@.len() && #[trigger] self.rooms@[i].key@ == k
    }

    pub open spec fn wf(&self) -> bool {
        self.consistent() && valid_rooms(self@)
    }

    /// An empty registry.
    pub fn new() -> (r: Self)
        ensures
            r.wf(),
            r@ == Map::<Seq<char>, Seq<u64>>::empty(),
    {
        RoomRegistry { rooms: Vec::new(), model: Ghost(Map::empty()) }
    }

    fn find(&self, key: &String) -> (r: Option<usize>)
        requires
            self.wf(),
        ensures
            match r {
                Some(i) => i < self.rooms@.len() && self.rooms@[i as int].key@ == key@
                    && self@.contains_key(key@),
                None => !self@.contains_key(key@),
            },
    {
        let mut i: usize = 0;
        while i < self.rooms.len()
            invariant
                self.wf(),
                i <= self.rooms@.len(),
                forall|j: int| 0 <= j < i ==> self.rooms@[j].key@ != key@,
            decreases self.rooms@.len() - i,
        {
            if self.rooms[i].key == *key {
                return Some(i);
            }
            i = i + 1;
        }
        None
    }
    /// Adds `handle` to room `key`, creating the room when it is absent,
    /// unless the room already holds `CAPACITY` members; then nothing changes.
    pub fn join(&mut self, key: &str, handle: u64) -> (r: JoinResult)
        requires
            old(self).wf(),
            !holds_handle(old(self)@, handle),
        ensures
            final(self).wf(),
            r == (if join_admits(old(self)@, key@) {
                JoinResult::Joined
            } else {
                JoinResult::Rejected
            }),
            final(self)@ == rooms_after_join(old(self)@, key@, handle),
    {
        proof {
            join_keeps_valid(self@, key@, handle);
        }
        let k = key.to_owned();
        match self.find(&k) {
            None => {
                let ghost old_rooms = self.rooms@;
                let members = vec![handle];
                self.rooms.push(Room { key: k, members });
                self.model = Ghost(self.model@.insert(key@, seq![handle]));
                assert(self.rooms@[old_rooms.len() as int].members@ =~= seq![handle]);
                assert forall|kk: Seq<char>| #[trigger] self.model@.contains_key(kk) implies exists|
                    i: int,
                | 0 <= i < self.rooms@.len() && #[trigger] self.rooms@[i].key@ == kk by {
                    if kk != key@ {
                        let i = choose|i: int|
                            0 <= i < old_rooms.len() && #[trigger] old_rooms[i].key@ == kk;
                        assert(self.rooms@[i].key@ == kk);
                    } else {
                        assert(self.rooms@[old_rooms.len() as int].key@ == kk);
                    }
                }
                JoinResult::Joined
            },
            Some(i) => {
                if self.rooms[i].members.len() >= CAPACITY {
                    JoinResult::Rejected
                } else {
                    let ghost old_rooms = self.rooms@;
                    let mut room = self.rooms.remove(i);
                    room.members.push(handle);
                    self.rooms.push(room);
                    self.model = Ghost(self.model@.insert(key@, old(self)@[key@].push(handle)));
                    let ghost n = self.rooms@.len() - 1;
                    assert forall|a: int, b: int|
                        0 <= a < b < self.rooms@.len() implies #[trigger] self.rooms@[a].key@
                        != #[trigger] self.rooms@[b].key@ by {
                        let a0 = if a < i { a } else { a + 1 };
                        if b < n {
                            let b0 = if b < i { b } else { b + 1 };
                            assert(old_rooms[a0].key@ != old_rooms[b0].key@);
                        } else {
                            assert(old_rooms[a0].key@ != old_rooms[i as int].key@);
                        }
                    }
                    assert forall|j: int| 0 <= j < self.rooms@.len() implies self.model@.contains_key(
                        #[trigger] self.rooms@[j].key@,
                    ) && self.model@[self.rooms@[j].key@] == self.rooms@[j].members@ by {
                        if j < n {
                            let j0 = if j < i { j } else { j + 1 };
                            assert(old_rooms[j0].key@ != old_rooms[i as int].key@);
                            assert(self.rooms@[j] == old_rooms[j0]);
                        }
                    }
                    assert forall|kk: Seq<char>| #[trigger] self.model@.contains_key(kk) implies exists|
                        j: int,
                    | 0 <= j < self.rooms@.len() && #[trigger] self.rooms@[j].key@ == kk by {
                        if kk != key@ {
                            let j0 = choose|j0: int|
                                0 <= j0 < old_rooms.len() && #[trigger] old_rooms[j0].key@ == kk;
                            if j0 < i {
                                assert(self.rooms@[j0].key@ == kk);
                            } else {
                                assert(j0 != i);
                                assert(self.rooms@[j0 - 1].key@ == kk);
                            }
                        } else {
                            assert(self.rooms@[n].key@ == kk);
                        }
                    }
                    JoinResult::Joined
                }
            },
        }
    }

    /// The members of room `key` other than `excluding`, in join order;
    /// empty when the room does not exist.
    pub fn broadcast_targets(&self, key: &str, excluding: u64) -> (r: Vec<u64>)
        requires
            self.wf(),
        ensures
            r@ == others_in(self@, key@, excluding),
    {
        let k = key.to_owned();
        match self.find(&k) {
            None => Vec::new(),
            Some(i) => others(&self.rooms[i].members, excluding),
        }
    }

    /// Takes `handle` out of room `key` and removes the room altogether,
    /// returning the members that were left in it (to be closed by the
    /// caller). Nothing changes when the room does not exist.
    pub fn leave(&mut self, key: &str, handle: u64) -> (r: Vec<u64>)
        requires
            old(self).wf(),
        ensures
            final(self).wf(),
            r@ == others_in(old(self)@, key@, handle),
            final(self)@ == old(self)@.remove(key@),
    {
        let k = key.to_owned();
        match self.find(&k) {
            None => {
                assert(self@.remove(key@) =~= self@);
                Vec::new()
            },
            Some(i) => {
                let ghost old_rooms = self.rooms@;
                let room = self.rooms.remove(i);
                self.model = Ghost(self.model@.remove(key@));
                assert forall|a: int, b: int|
                    0 <= a < b < self.rooms@.len() implies #[trigger] self.rooms@[a].key@
                    != #[trigger] self.rooms@[b].key@ by {
                    let a0 = if a < i { a } else { a + 1 };
                    let b0 = if b < i { b } else { b + 1 };
                    assert(old_rooms[a0].key@ != old_rooms[b0].key@);
                }
                assert forall|j: int| 0 <= j < self.rooms@.len() implies self.model@.contains_key(
                    #[trigger] self.rooms@[j].key@,
                ) && self.model@[self.rooms@[j].key@] == self.rooms@[j].members@ by {
                    let j0 = if j < i { j } else { j + 1 };
                    assert(old_rooms[j0].key@ != old_rooms[i as int].key@);
                    assert(self.rooms@[j] == old_rooms[j0]);
                }
                assert forall|kk: Seq<char>| #[trigger] self.model@.contains_key(kk) implies exists|
                    j: int,
                | 0 <= j < self.rooms@.len() && #[trigger] self.rooms@[j].key@ == kk by {
                    let j0 = choose|j0: int|
                        0 <= j0 < old_rooms.len() && #[trigger] old_rooms[j0].key@ == kk;
                    if j0 < i {
                        assert(self.rooms@[j0].key@ == kk);
                    } else {
                        assert(j0 != i);
                        assert(self.rooms@[j0 - 1].key@ == kk);
                    }
                }
                others(&room.members, handle)
            },
        }
    }
    /// The members of room `key` in join order, or `None` when there is no
    /// such room.
    pub fn members(&self, key: &str) -> (r: Option<Vec<u64>>)
        requires
            self.wf(),
        ensures
            match r {
                Some(v) => self@.contains_key(key@) && v@ == self@[key@],
                None => !self@.contains_key(key@),
            },
    {
        let k = key.to_owned();
        match self.find(&k) {
            None => None,
            Some(i) => Some(self.rooms[i].members.clone()),
        }
    }

    /// Whether `handle` is a member of some room.
    pub fn has_member(&self, handle: u64) -> (r: bool)
        requires
            self.wf(),
        ensures
            r == holds_handle(self@, handle),
    {
        let mut i: usize = 0;
        while i < self.rooms.len()
            invariant
                self.wf(),
                i <= self.rooms@.len(),
                forall|j: int| 0 <= j < i ==> !(#[trigger] self.rooms@[j]).members@.contains(handle),
            decreases self.rooms@.len() - i,
        {
            let members = &self.rooms[i].members;
            let mut j: usize = 0;
            while j < members.len()
                invariant
                    self.wf(),
                    i < self.rooms@.len(),
                    *members == self.rooms@[i as int].members,
                    j <= members@.len(),
                    forall|m: int| 0 <= m < j ==> members@[m] != handle,
                decreases members@.len() - j,
            {
                if members[j] == handle {
                    assert(self@[self.rooms@[i as int].key@].contains(handle));
                    return true;
                }
                j = j + 1;
            }
            i = i + 1;
        }
        assert forall|k: Seq<char>| self@.contains_key(k) implies !(#[trigger] self@[k]).contains(
            handle,
        ) by {
            let j = choose|j: int| 0 <= j < self.rooms@.len() && #[trigger] self.rooms@[j].key@ == k;
            assert(!self.rooms@[j].members@.contains(handle));
        }
        false
    }
}

} // verus!
