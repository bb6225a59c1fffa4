use vstd::prelude::*;
use vstd::string::StringExecFns;

verus! {

/// What the directory knows of a room: the instance it refers to and how many sessions
/// currently hold it.
pub type RoomState = (u64, nat);

/// The entries whose room is still held by some session; the others are stale.
pub open spec fn live_rooms(rooms: Map<Seq<char>, RoomState>) -> Map<Seq<char>, RoomState> {
    Map::new(|k: Seq<char>| rooms.contains_key(k) && rooms[k].1 > 0, |k: Seq<char>| rooms[k])
}

/// The instance that a connect to `name` receives: the live room of that name, or else a
/// fresh instance numbered `next`.
pub open spec fn acquired_instance(
    rooms: Map<Seq<char>, RoomState>,
    next: u64,
    name: Seq<char>,
) -> u64 {
    if live_rooms(rooms).contains_key(name) {
        rooms[name].0
    } else {
        next
    }
}

/// The directory after a connect to `name`: stale entries gone, and the room of that name
/// held once more.
pub open spec fn acquired_rooms(
    rooms: Map<Seq<char>, RoomState>,
    next: u64,
    name: Seq<char>,
) -> Map<Seq<char>, RoomState> {
    let live = live_rooms(rooms);
    if live.contains_key(name) {
        live.insert(name, (rooms[name].0, rooms[name].1 + 1))
    } else {
        live.insert(name, (next, 1))
    }
}

/// Whether a connect to `name` fits the counters: neither the holder count nor the instance
/// numbers are exhausted.
pub open spec fn acquire_fits(rooms: Map<Seq<char>, RoomState>, next: u64, name: Seq<char>) -> bool {
    if live_rooms(rooms).contains_key(name) {
        rooms[name].1 < usize::MAX
    } else {
        next < u64::MAX
    }
}

/// The directory after a session lets go of `instance`, the room of `name`.
pub open spec fn released_rooms(
    rooms: Map<Seq<char>, RoomState>,
    name: Seq<char>,
    instance: u64,
) -> Map<Seq<char>, RoomState> {
    if holds(rooms, name, instance) {
        rooms.insert(name, (instance, (rooms[name].1 - 1) as nat))
    } else {
        rooms
    }
}

/// Whether `instance` is the live room of `name`.
pub open spec fn holds(rooms: Map<Seq<char>, RoomState>, name: Seq<char>, instance: u64) -> bool {
    rooms.contains_key(name) && rooms[name].0 == instance && rooms[name].1 > 0
}

/// One directory entry.
struct RoomSlot {
    name: String,
    instance: u64,
    owners: usize,
}

/// The directory of rooms by name. Each entry counts the sessions that hold its room; an
/// entry whose count has dropped to zero is stale and is removed on the next connect.
pub struct RoomRegistry {
    slots: Vec<RoomSlot>,
    next_instance: u64,
    model: Ghost<Map<Seq<char>, RoomState>>,
}

impl RoomRegistry {
    /// The entries by room name, stale ones included.
    pub closed spec fn rooms(&self) -> Map<Seq<char>, RoomState> {
        self.model@
    }

    /// The instance number that the next room created receives.
    pub closed spec fn next_instance(&self) -> u64 {
        self.next_instance
    }

    /// The entries match the slots one for one, each name appears once, and every instance
    /// handed out lies below the next one.
    pub closed spec fn wf(&self) -> bool {
        &&& forall|i: int|
            0 <= i < self.slots@.len() ==> #[trigger] self.model@.contains_key(self.slots@[i].name@)
                && self.model@[self.slots@[i].name@] == (
                self.slots@[i].instance,
                self.slots@[i].owners as nat,
            )
        &&& forall|k: Seq<char>| #[trigger]
            self.model@.contains_key(k) ==> exists|i: int|
                0 <= i < self.slots@.len() && self.slots@[i].name@ == k
        &&& forall|i: int, j: int|
            0 <= i < self.slots@.len() && 0 <= j < self.slots@.len() && i != j
                ==> self.slots@[i].name@ != self.slots@[j].name@
        &&& forall|k: Seq<char>| #[trigger]
            self.model@.contains_key(k) ==> self.model@[k].0 < self.next_instance
    }

    /// An empty directory whose first room gets instance number 1.
    pub fn new() -> (r: Self)
        ensures
            r.wf(),
            r.rooms() == Map::<Seq<char>, RoomState>::empty(),
            r.next_instance() == 1,
    {
        RoomRegistry { slots: Vec::new(), next_instance: 1, model: Ghost(Map::empty()) }
    }

    /// The number of entries, stale ones included.
    pub fn len(&self) -> (r: usize)
        requires
            self.wf(),
        ensures
            r == self.rooms().dom().len(),
    {
        proof {
            self.lemma_dom_is_names();
        }
        self.slots.len()
    }

    proof fn lemma_dom_is_names(&self)
        requires
            self.wf(),
        ensures
            self.model@.dom().len() == self.slots@.len(),
    {
        let names = self.slots@.map_values(|s: RoomSlot| s.name@);
        assert(names.no_duplicates()) by {
            assert forall|i: int, j: int|
                0 <= i < names.len() && 0 <= j < names.len() && i != j implies names[i]
                != names[j] by {
                assert(names[i] == self.slots@[i].name@);
                assert(names[j] == self.slots@[j].name@);
            }
        }
        assert(self.model@.dom() =~= names.to_set()) by {
            assert forall|k: Seq<char>| self.model@.dom().contains(k) implies names.contains(k) by {
                let i = choose|i: int| 0 <= i < self.slots@.len() && self.slots@[i].name@ == k;
                assert(names[i] == k);
            }
            assert forall|k: Seq<char>| names.contains(k) implies self.model@.dom().contains(k) by {
                let i = choose|i: int| 0 <= i < names.len() && names[i] == k;
                assert(self.slots@[i].name@ == k);
            }
        }
        names.unique_seq_to_set();
    }

    /// The position of the entry named `name`, if there is one.
    fn position(&self, name: &String) -> (r: Option<usize>)
        requires
            self.wf(),
        ensures
            r matches Some(i) ==> i < self.slots@.len() && self.slots@[i as int].name@ == name@,
            r is None ==> !self.model@.contains_key(name@),
    {
        let mut i: usize = 0;
        while i < self.slots.len()
            invariant
                i <= self.slots@.len(),
                forall|j: int| 0 <= j < i ==> self.slots@[j].name@ != name@,
            decreases self.slots@.len() - i,
        {
            if self.slots[i].name == *name {
                return Some(i);
            }
            i = i + 1;
        }
        None
    }

    /// The live room instance of `name`, if a session holds one.
    pub fn instance_of(&self, name: &str) -> (r: Option<u64>)
        requires
            self.wf(),
        ensures
            r is Some <==> live_rooms(self.rooms()).contains_key(name@),
            r matches Some(n) ==> n == self.rooms()[name@].0,
    {
        let key = String::from_str(name);
        match self.position(&key) {
            Some(i) => {
                if self.slots[i].owners > 0 {
                    Some(self.slots[i].instance)
                } else {
                    None
                }
            },
            None => None,
        }
    }

    /// Removes every stale entry.
    fn prune(&mut self)
        requires
            old(self).wf(),
        ensures
            final(self).wf(),
            final(self).rooms() == live_rooms(old(self).rooms()),
            final(self).next_instance() == old(self).next_instance(),
    {
        let ghost orig = self.model@;
        let mut i: usize = 0;
        while i < self.slots.len()
            invariant
                self.wf(),
                self.next_instance == old(self).next_instance,
                i <= self.slots@.len(),
                forall|j: int| 0 <= j < i ==> self.slots@[j].owners > 0,
                live_rooms(self.model@) == live_rooms(orig),
                forall|k: Seq<char>| #[trigger]
                    self.model@.contains_key(k) ==> orig.contains_key(k) && self.model@[k]
                        == orig[k],
            decreases self.slots@.len() - i,
        {
            if self.slots[i].owners == 0 {
                let ghost before = self.slots@;
                let ghost gone = self.slots@[i as int].name@;
                let ghost m = self.model@;
                self.slots.remove(i);
                self.model = Ghost(m.remove(gone));
                proof {
                    assert forall|j: int| 0 <= j < self.slots@.len() implies #[trigger]
                        self.model@.contains_key(self.slots@[j].name@) && self.model@[self.slots@[j].name@]
                            == (self.slots@[j].instance, self.slots@[j].owners as nat) by {
                        if j < i {
                            assert(self.slots@[j] == before[j]);
                        } else {
                            assert(self.slots@[j] == before[j + 1]);
                        }
                    }
                    assert forall|k: Seq<char>| #[trigger]
                        self.model@.contains_key(k) implies exists|j: int|
                            0 <= j < self.slots@.len() && self.slots@[j].name@ == k by {
                        let j = choose|j: int| 0 <= j < before.len() && before[j].name@ == k;
                        if j < i {
                            assert(self.slots@[j] == before[j]);
                        } else {
                            assert(j != i);
                            assert(self.slots@[j - 1] == before[j]);
                        }
                    }
                    assert forall|a: int, b: int|
                        0 <= a < self.slots@.len() && 0 <= b < self.slots@.len() && a != b
                            implies self.slots@[a].name@ != self.slots@[b].name@ by {
                        let a2 = if a < i { a } else { a + 1 };
                        let b2 = if b < i { b } else { b + 1 };
                        assert(self.slots@[a] == before[a2]);
                        assert(self.slots@[b] == before[b2]);
                    }
                    assert(live_rooms(self.model@) =~= live_rooms(m));
                }
            } else {
                i = i + 1;
            }
        }
        proof {
            assert(self.model@ =~= live_rooms(orig)) by {
                assert forall|k: Seq<char>| #[trigger] self.model@.contains_key(k) implies self.model@[k].1 > 0 by {
                    let j = choose|j: int| 0 <= j < self.slots@.len() && self.slots@[j].name@ == k;
                }
                assert(live_rooms(self.model@) =~= self.model@);
            }
        }
    }

    /// Connects a session to the room `name`: removes the stale entries, then hands out the
    /// live room of that name, or creates one. Returns the instance and whether it is new;
    /// `None` once the counters are exhausted, with only the stale entries removed.
    pub fn get_or_create(&mut self, name: &str) -> (r: Option<(u64, bool)>)
        requires
            old(self).wf(),
        ensures
            final(self).wf(),
            r is Some <==> acquire_fits(old(self).rooms(), old(self).next_instance(), name@),
            r matches Some((instance, created)) ==> {
                &&& instance == acquired_instance(
                    old(self).rooms(),
                    old(self).next_instance(),
                    name@,
                )
                &&& created == !live_rooms(old(self).rooms()).contains_key(name@)
                &&& final(self).rooms() == acquired_rooms(
                    old(self).rooms(),
                    old(self).next_instance(),
                    name@,
                )
                &&& final(self).next_instance() == if created {
                    old(self).next_instance() + 1
                } else {
                    old(self).next_instance() as int
                }
            },
            r is None ==> final(self).rooms() == live_rooms(old(self).rooms())
                && final(self).next_instance() == old(self).next_instance(),
    {
        self.prune();
        let key = String::from_str(name);
        match self.position(&key) {
            Some(i) => {
                if self.slots[i].owners == usize::MAX {
                    return None;
                }
                let ghost before = self.slots@;
                let ghost m = self.model@;
                let mut slot = self.slots.remove(i);
                slot.owners = slot.owners + 1;
                let instance = slot.instance;
                self.slots.insert(i, slot);
                self.model = Ghost(m.insert(name@, (instance, m[name@].1 + 1)));
                proof {
                    assert(self.slots@ =~= before.update(i as int, self.slots@[i as int]));
                    assert forall|k: Seq<char>| #[trigger]
                        self.model@.contains_key(k) implies exists|j: int|
                            0 <= j < self.slots@.len() && self.slots@[j].name@ == k by {
                        if k != name@ {
                            let j = choose|j: int| 0 <= j < before.len() && before[j].name@ == k;
                            assert(self.slots@[j].name@ == k);
                        } else {
                            assert(self.slots@[i as int].name@ == k);
                        }
                    }
                    assert(self.model@ =~= acquired_rooms(
                        old(self).rooms(),
                        old(self).next_instance(),
                        name@,
                    ));
                }
                Some((instance, false))
            },
            None => {
                if self.next_instance == u64::MAX {
                    return None;
                }
                let ghost before = self.slots@;
                let ghost m = self.model@;
                let instance = self.next_instance;
                self.slots.push(RoomSlot { name: key, instance, owners: 1 });
                self.next_instance = self.next_instance + 1;
                self.model = Ghost(m.insert(name@, (instance, 1)));
                proof {
                    assert forall|j: int| 0 <= j < self.slots@.len() implies #[trigger]
                        self.model@.contains_key(self.slots@[j].name@) && self.model@[self.slots@[j].name@]
                            == (self.slots@[j].instance, self.slots@[j].owners as nat) by {
                        if j < before.len() {
                            assert(self.slots@[j] == before[j]);
                            assert(m.contains_key(before[j].name@));
                        }
                    }
                    assert forall|k: Seq<char>| #[trigger]
                        self.model@.contains_key(k) implies exists|j: int|
                            0 <= j < self.slots@.len() && self.slots@[j].name@ == k by {
                        if k != name@ {
                            let j = choose|j: int| 0 <= j < before.len() && before[j].name@ == k;
                            assert(self.slots@[j].name@ == k);
                        } else {
                            assert(self.slots@[before.len() as int].name@ == k);
                        }
                    }
                    assert forall|a: int, b: int|
                        0 <= a < self.slots@.len() && 0 <= b < self.slots@.len() && a != b
                            implies self.slots@[a].name@ != self.slots@[b].name@ by {
                        if a < before.len() {
                            assert(m.contains_key(before[a].name@));
                        }
                        if b < before.len() {
                            assert(m.contains_key(before[b].name@));
                        }
                    }
                    assert(self.model@ =~= acquired_rooms(
                        old(self).rooms(),
                        old(self).next_instance(),
                        name@,
                    ));
                }
                Some((instance, true))
            },
        }
    }

    /// Every instance in the directory lies below the next one to be handed out.
    pub proof fn lemma_instances_below_next(&self)
        requires
            self.wf(),
        ensures
            forall|k: Seq<char>| #[trigger]
                self.rooms().contains_key(k) ==> self.rooms()[k].0 < self.next_instance(),
    {
    }

    /// A session of `name` lets go of its room `instance`. Returns whether it was the last
    /// holder, so that the room is now destroyed; its entry stays, stale, until the next
    /// connect. A pair that is not a live room changes nothing.
    pub fn release(&mut self, name: &str, instance: u64) -> (r: bool)
        requires
            old(self).wf(),
        ensures
            final(self).wf(),
            final(self).rooms() == released_rooms(old(self).rooms(), name@, instance),
            final(self).next_instance() == old(self).next_instance(),
            r == (holds(old(self).rooms(), name@, instance) && old(self).rooms()[name@].1 == 1),
    {
        let key = String::from_str(name);
        match self.position(&key) {
            Some(i) => {
                if self.slots[i].instance != instance || self.slots[i].owners == 0 {
                    return false;
                }
                let ghost before = self.slots@;
                let ghost m = self.model@;
                let mut slot = self.slots.remove(i);
                slot.owners = slot.owners - 1;
                let last = slot.owners == 0;
                self.slots.insert(i, slot);
                self.model = Ghost(m.insert(name@, (instance, (m[name@].1 - 1) as nat)));
                proof {
                    assert(m.contains_key(before[i as int].name@));
                    assert(m[name@].0 == instance);
                    assert(instance < self.next_instance);
                    assert(self.slots@ =~= before.update(i as int, self.slots@[i as int]));
                    assert forall|j: int| 0 <= j < self.slots@.len() implies #[trigger]
                        self.model@.contains_key(self.slots@[j].name@) && self.model@[self.slots@[j].name@]
                            == (self.slots@[j].instance, self.slots@[j].owners as nat) by {
                        if j != i {
                            assert(self.slots@[j] == before[j]);
                            assert(before[j].name@ != name@);
                        } else {
                            assert(m.contains_key(before[i as int].name@));
                            assert(self.slots@[j].owners == before[j].owners - 1);
                        }
                    }
                    assert forall|a: int, b: int|
                        0 <= a < self.slots@.len() && 0 <= b < self.slots@.len() && a != b
                            implies self.slots@[a].name@ != self.slots@[b].name@ by {
                        assert(self.slots@[a].name@ == before[a].name@);
                        assert(self.slots@[b].name@ == before[b].name@);
                    }
                    assert forall|k: Seq<char>| #[trigger]
                        self.model@.contains_key(k) implies exists|j: int|
                            0 <= j < self.slots@.len() && self.slots@[j].name@ == k by {
                        if k != name@ {
                            let j = choose|j: int| 0 <= j < before.len() && before[j].name@ == k;
                            assert(self.slots@[j].name@ == k);
                        } else {
                            assert(self.slots@[i as int].name@ == k);
                        }
                    }
                }
                last
            },
            None => false,
        }
    }
}

/// While some session holds the room of `name`, a connect to `name` is handed that same
/// instance, creates nothing, and leaves the room held under it.
pub proof fn lemma_connect_reuses_live_room(
    rooms: Map<Seq<char>, RoomState>,
    next: u64,
    name: Seq<char>,
    instance: u64,
)
    requires
        holds(rooms, name, instance),
    ensures
        acquired_instance(rooms, next, name) == instance,
        live_rooms(rooms).contains_key(name),
        holds(acquired_rooms(rooms, next, name), name, instance),
        acquired_rooms(rooms, next, name)[name].1 == rooms[name].1 + 1,
{
}

/// After any connect to `name`, the room of `name` is held under the instance handed out.
pub proof fn lemma_connect_holds_room(rooms: Map<Seq<char>, RoomState>, next: u64, name: Seq<char>)
    ensures
        holds(acquired_rooms(rooms, next, name), name, acquired_instance(rooms, next, name)),
{
}

/// Letting go of a room that another session still holds keeps it live under the same
/// instance.
pub proof fn lemma_release_keeps_shared_room(
    rooms: Map<Seq<char>, RoomState>,
    name: Seq<char>,
    instance: u64,
)
    requires
        holds(rooms, name, instance),
        rooms[name].1 > 1,
    ensures
        holds(released_rooms(rooms, name, instance), name, instance),
{
}

/// The number of sessions that hold the room `instance` of `name`; zero if it is not live.
pub open spec fn holders(rooms: Map<Seq<char>, RoomState>, name: Seq<char>, instance: u64) -> nat {
    if holds(rooms, name, instance) {
        rooms[name].1
    } else {
        0
    }
}

/// `n` connects to `name` in a row.
pub open spec fn connect_times(
    rooms: Map<Seq<char>, RoomState>,
    next: u64,
    name: Seq<char>,
    n: nat,
) -> (Map<Seq<char>, RoomState>, u64)
    decreases n,
{
    if n == 0 {
        (rooms, next)
    } else {
        let (r, x) = connect_times(rooms, next, name, (n - 1) as nat);
        let created = !live_rooms(r).contains_key(name);
        (acquired_rooms(r, x, name), if created { (x + 1) as u64 } else { x })
    }
}

/// Once one connect to `name` has been made, every further connect in a row is handed the
/// instance that the first one received.
pub proof fn lemma_connects_share_instance(
    rooms: Map<Seq<char>, RoomState>,
    next: u64,
    name: Seq<char>,
    n: nat,
)
    requires
        n >= 1,
    ensures
        ({
            let (r, x) = connect_times(rooms, next, name, n);
            acquired_instance(r, x, name) == acquired_instance(rooms, next, name)
                && holds(r, name, acquired_instance(rooms, next, name))
        }),
    decreases n,
{
    lemma_connect_holds_room(rooms, next, name);
    if n > 1 {
        lemma_connects_share_instance(rooms, next, name, (n - 1) as nat);
        let (r, x) = connect_times(rooms, next, name, (n - 1) as nat);
        lemma_connect_reuses_live_room(r, x, name, acquired_instance(rooms, next, name));
    } else {
        assert(connect_times(rooms, next, name, 0) == (rooms, next));
        let (r, x) = connect_times(rooms, next, name, 1);
        lemma_connect_reuses_live_room(r, x, name, acquired_instance(rooms, next, name));
    }
}

/// When the last holder of the room `instance` of `name` lets go, the next connect to `name`
/// creates a new instance, distinct from the old one, and the directory then holds that
/// single live entry for `name`.
pub proof fn lemma_reconnect_after_teardown_is_new(
    rooms: Map<Seq<char>, RoomState>,
    next: u64,
    name: Seq<char>,
    instance: u64,
)
    requires
        holds(rooms, name, instance),
        rooms[name].1 == 1,
        forall|k: Seq<char>| #[trigger] rooms.contains_key(k) ==> rooms[k].0 < next,
    ensures
        ({
            let after = released_rooms(rooms, name, instance);
            &&& !live_rooms(after).contains_key(name)
            &&& acquired_instance(after, next, name) == next
            &&& acquired_instance(after, next, name) != instance
            &&& holds(acquired_rooms(after, next, name), name, next)
            &&& !holds(acquired_rooms(after, next, name), name, instance)
        }),
{
}

/// One directory operation of some session.
pub enum DirectoryOp {
    /// A session connects to the room of this name.
    Connect(Seq<char>),
    /// A session lets go of this instance of the room of this name.
    Release(Seq<char>, u64),
}

/// The directory and next instance number after `op`.
pub open spec fn apply_op(rooms: Map<Seq<char>, RoomState>, next: u64, op: DirectoryOp) -> (
    Map<Seq<char>, RoomState>,
    u64,
) {
    match op {
        DirectoryOp::Connect(n) => (
            acquired_rooms(rooms, next, n),
            if live_rooms(rooms).contains_key(n) {
                next
            } else {
                (next + 1) as u64
            },
        ),
        DirectoryOp::Release(n, i) => (released_rooms(rooms, n, i), next),
    }
}

/// The directory and next instance number after the operations `ops`, in order.
pub open spec fn apply_ops(rooms: Map<Seq<char>, RoomState>, next: u64, ops: Seq<DirectoryOp>) -> (
    Map<Seq<char>, RoomState>,
    u64,
)
    decreases ops.len(),
{
    if ops.len() == 0 {
        (rooms, next)
    } else {
        let (r, x) = apply_ops(rooms, next, ops.drop_last());
        apply_op(r, x, ops.last())
    }
}

/// Across any sequence of connects and releases, for any names, in which no release lets go
/// of the last holder of the room `instance` of `name`, that room stays held under the same
/// instance, and every connect to `name` in the sequence is handed that instance.
pub proof fn lemma_held_room_keeps_identity(
    rooms: Map<Seq<char>, RoomState>,
    next: u64,
    name: Seq<char>,
    instance: u64,
    ops: Seq<DirectoryOp>,
)
    requires
        holds(rooms, name, instance),
        forall|k: int|
            0 <= k < ops.len() && #[trigger] ops[k] == DirectoryOp::Release(name, instance) ==> {
                let (r, x) = apply_ops(rooms, next, ops.take(k));
                r[name].1 > 1
            },
    ensures
        holds(apply_ops(rooms, next, ops).0, name, instance),
        forall|k: int|
            0 <= k < ops.len() && #[trigger] ops[k] == DirectoryOp::Connect(name) ==> {
                let (r, x) = apply_ops(rooms, next, ops.take(k));
                acquired_instance(r, x, name) == instance
            },
    decreases ops.len(),
{
    if ops.len() > 0 {
        let pre = ops.drop_last();
        let k = ops.len() - 1;
        assert(ops.take(k) =~= pre);
        assert forall|j: int|
            0 <= j < pre.len() && #[trigger] pre[j] == DirectoryOp::Release(name, instance) implies {
                let (r, x) = apply_ops(rooms, next, pre.take(j));
                r[name].1 > 1
            } by {
            assert(pre.take(j) =~= ops.take(j));
            assert(ops[j] == pre[j]);
        }
        lemma_held_room_keeps_identity(rooms, next, name, instance, pre);
        let (r, x) = apply_ops(rooms, next, pre);
        assert(holds(r, name, instance));
        match ops.last() {
            DirectoryOp::Connect(n) => {
                assert(live_rooms(r).contains_key(name));
            },
            DirectoryOp::Release(n, i) => {
                if n == name && i == instance {
                    assert(ops[k] == DirectoryOp::Release(name, instance));
                }
            },
        }
        assert forall|j: int|
            0 <= j < ops.len() && #[trigger] ops[j] == DirectoryOp::Connect(name) implies {
                let (r2, x2) = apply_ops(rooms, next, ops.take(j));
                acquired_instance(r2, x2, name) == instance
            } by {
            if j < k {
                assert(pre.take(j) =~= ops.take(j));
                assert(pre[j] == ops[j]);
            }
        }
    }
}

/// A connect to `name` leaves every other live room as it was, and afterwards the live
/// entry of `name` is the single one that refers to the instance handed out.
pub proof fn lemma_connect_leaves_other_rooms(
    rooms: Map<Seq<char>, RoomState>,
    next: u64,
    name: Seq<char>,
    other: Seq<char>,
)
    requires
        other != name,
        forall|k: Seq<char>| #[trigger] rooms.contains_key(k) ==> rooms[k].0 < next,
    ensures
        live_rooms(acquired_rooms(rooms, next, name)).contains_key(other) == live_rooms(
            rooms,
        ).contains_key(other),
        live_rooms(rooms).contains_key(other) ==> acquired_rooms(rooms, next, name)[other]
            == rooms[other],
        !live_rooms(rooms).contains_key(name) ==> !holds(
            acquired_rooms(rooms, next, name),
            other,
            acquired_instance(rooms, next, name),
        ),
{
}

} // verus!
