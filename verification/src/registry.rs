//! The process-wide room registry: a table from room name to room state
//! (subscriber count and the identity of the room's fan-out channel and
//! bus bridge). Rooms are created on first acquire and destroyed when the
//! last holder releases them.

use vstd::prelude::*;

verus! {

/// Model of one live room: its name, its subscriber count, and the
/// identity of the fan-out channel (and bus bridge) serving it.
#[verifier::ext_equal]
pub struct RoomModel {
    pub name: Seq<char>,
    pub count: nat,
    pub channel: nat,
}

/// Model of the registry: the live rooms in creation order, and the next
/// channel identity to hand out.
#[verifier::ext_equal]
pub struct RegistryModel {
    pub rooms: Seq<RoomModel>,
    pub fresh: nat,
}

/// Index of the first room named `name`, or -1 when no room matches.
pub open spec fn index_of(rooms: Seq<RoomModel>, name: Seq<char>) -> int
    decreases rooms.len(),
{
    if rooms.len() == 0 {
        -1
    } else if rooms[0].name == name {
        0
    } else {
        let k = index_of(rooms.drop_first(), name);
        if k < 0 {
            -1
        } else {
            k + 1
        }
    }
}

/// Whether a room named `name` stands in the registry.
pub open spec fn has_room(rooms: Seq<RoomModel>, name: Seq<char>) -> bool {
    index_of(rooms, name) >= 0
}

/// The subscriber count of the room named `name`, or 0 when absent.
pub open spec fn count_at(rooms: Seq<RoomModel>, name: Seq<char>) -> nat {
    if index_of(rooms, name) >= 0 {
        rooms[index_of(rooms, name)].count
    } else {
        0
    }
}

/// The channel identity of the room named `name` (meaningful only when
/// the room is present).
pub open spec fn channel_at(rooms: Seq<RoomModel>, name: Seq<char>) -> nat {
    if index_of(rooms, name) >= 0 {
        rooms[index_of(rooms, name)].channel
    } else {
        0
    }
}

/// `index_of` finds exactly the first matching room.
pub proof fn lemma_index_of(rooms: Seq<RoomModel>, name: Seq<char>)
    ensures
        -1 <= index_of(rooms, name) < rooms.len(),
        index_of(rooms, name) >= 0 ==> rooms[index_of(rooms, name)].name == name,
        forall|j: int|
            0 <= j < rooms.len() && #[trigger] rooms[j].name == name ==> index_of(rooms, name)
                >= 0 && index_of(rooms, name) <= j,
    decreases rooms.len(),
{
    if rooms.len() > 0 && rooms[0].name != name {
        lemma_index_of(rooms.drop_first(), name);
        assert forall|j: int|
            0 <= j < rooms.len() && #[trigger] rooms[j].name == name implies index_of(rooms, name)
            >= 0 && index_of(rooms, name) <= j by {
            assert(rooms.drop_first()[j - 1] == rooms[j]);
        }
    }
}

/// No name is repeated, every live room has at least one subscriber, and
/// no channel identity is repeated.
pub open spec fn wf_rooms(rooms: Seq<RoomModel>) -> bool {
    &&& forall|i: int, j: int|
        #![trigger rooms[i], rooms[j]]
        0 <= i < j < rooms.len() ==> rooms[i].name != rooms[j].name && rooms[i].channel
            != rooms[j].channel
    &&& forall|i: int| 0 <= i < rooms.len() ==> (#[trigger] rooms[i]).count >= 1
}

/// Registry well-formedness: the rooms are well formed and every channel
/// identity already handed out lies below the fresh counter.
pub open spec fn wf_model(m: RegistryModel) -> bool {
    &&& wf_rooms(m.rooms)
    &&& forall|i: int| 0 <= i < m.rooms.len() ==> (#[trigger] m.rooms[i]).channel < m.fresh
}

/// What acquiring a room does to the registry model: bump the count of a
/// present room, or append a fresh room with count 1 and a fresh channel.
pub open spec fn acquire_spec(m: RegistryModel, name: Seq<char>) -> RegistryModel {
    let i = index_of(m.rooms, name);
    if i >= 0 {
        RegistryModel {
            rooms: m.rooms.update(
                i,
                RoomModel {
                    name: m.rooms[i].name,
                    count: m.rooms[i].count + 1,
                    channel: m.rooms[i].channel,
                },
            ),
            fresh: m.fresh,
        }
    } else {
        RegistryModel {
            rooms: m.rooms.push(RoomModel { name, count: 1, channel: m.fresh }),
            fresh: m.fresh + 1,
        }
    }
}

/// What releasing a room does to the registry model: a no-op when absent,
/// removal when the count would reach 0, a decrement otherwise.
pub open spec fn release_spec(m: RegistryModel, name: Seq<char>) -> RegistryModel {
    let i = index_of(m.rooms, name);
    if i < 0 {
        m
    } else if m.rooms[i].count <= 1 {
        RegistryModel { rooms: m.rooms.remove(i), fresh: m.fresh }
    } else {
        RegistryModel {
            rooms: m.rooms.update(
                i,
                RoomModel {
                    name: m.rooms[i].name,
                    count: (m.rooms[i].count - 1) as nat,
                    channel: m.rooms[i].channel,
                },
            ),
            fresh: m.fresh,
        }
    }
}

/// `index_of` looks only at the names: two room tables with the same
/// names in the same places index alike.
proof fn lemma_index_of_same_names(r1: Seq<RoomModel>, r2: Seq<RoomModel>, name: Seq<char>)
    requires
        r1.len() == r2.len(),
        forall|k: int| 0 <= k < r1.len() ==> (#[trigger] r1[k]).name == r2[k].name,
    ensures
        index_of(r1, name) == index_of(r2, name),
    decreases r1.len(),
{
    if r1.len() > 0 {
        assert(r1[0].name == r2[0].name);
        lemma_index_of_same_names(r1.drop_first(), r2.drop_first(), name);
    }
}

/// How `index_of` behaves on an appended room.
proof fn lemma_index_of_push(rooms: Seq<RoomModel>, e: RoomModel, name: Seq<char>)
    ensures
        index_of(rooms.push(e), name) == if index_of(rooms, name) >= 0 {
            index_of(rooms, name)
        } else if e.name == name {
            rooms.len() as int
        } else {
            -1
        },
    decreases rooms.len(),
{
    lemma_index_of(rooms, name);
    let p = rooms.push(e);
    if rooms.len() == 0 {
        assert(p[0] == e);
        assert(p.drop_first() =~= Seq::<RoomModel>::empty());
        assert(index_of(p.drop_first(), name) == -1);
    } else {
        assert(p[0] == rooms[0]);
        if rooms[0].name != name {
            lemma_index_of_push(rooms.drop_first(), e, name);
            assert(p.drop_first() =~= rooms.drop_first().push(e));
        }
    }
}

/// Acquiring `name` bumps its count by one, touches no other room, keeps
/// well-formedness, and hands the new room (if any) the old fresh channel.
pub proof fn lemma_acquire_props(m: RegistryModel, name: Seq<char>)
    requires
        wf_model(m),
    ensures
        wf_model(acquire_spec(m, name)),
        has_room(acquire_spec(m, name).rooms, name),
        count_at(acquire_spec(m, name).rooms, name) == count_at(m.rooms, name) + 1,
        channel_at(acquire_spec(m, name).rooms, name) == if has_room(m.rooms, name) {
            channel_at(m.rooms, name)
        } else {
            m.fresh
        },
        forall|other: Seq<char>|
            other != name ==> #[trigger] count_at(acquire_spec(m, name).rooms, other) == count_at(
                m.rooms,
                other,
            ) && has_room(acquire_spec(m, name).rooms, other) == has_room(m.rooms, other)
                && channel_at(acquire_spec(m, name).rooms, other) == channel_at(m.rooms, other),
{
    lemma_index_of(m.rooms, name);
    let i = index_of(m.rooms, name);
    let m2 = acquire_spec(m, name);
    if i >= 0 {
        lemma_index_of_same_names(m2.rooms, m.rooms, name);
        assert forall|other: Seq<char>| other != name implies #[trigger] count_at(
            m2.rooms,
            other,
        ) == count_at(m.rooms, other) && has_room(m2.rooms, other) == has_room(m.rooms, other)
            && channel_at(m2.rooms, other) == channel_at(m.rooms, other) by {
            lemma_index_of_same_names(m2.rooms, m.rooms, other);
            lemma_index_of(m.rooms, other);
        }
    } else {
        let e = RoomModel { name, count: 1, channel: m.fresh };
        lemma_index_of_push(m.rooms, e, name);
        assert(m2.rooms[m.rooms.len() as int] == e);
        assert forall|other: Seq<char>| other != name implies #[trigger] count_at(
            m2.rooms,
            other,
        ) == count_at(m.rooms, other) && has_room(m2.rooms, other) == has_room(m.rooms, other)
            && channel_at(m2.rooms, other) == channel_at(m.rooms, other) by {
            lemma_index_of_push(m.rooms, e, other);
            lemma_index_of(m.rooms, other);
        }
        assert forall|p: int, q: int|
            #![trigger m2.rooms[p], m2.rooms[q]]
            0 <= p < q < m2.rooms.len() implies m2.rooms[p].name != m2.rooms[q].name
            && m2.rooms[p].channel != m2.rooms[q].channel by {
            if q == m.rooms.len() as int && m2.rooms[p].name == name {
                lemma_index_of(m.rooms, name);
            }
        }
    }
}

/// Releasing `name` lowers its count by one (emptying removes the room),
/// touches no other room, and keeps well-formedness.
pub proof fn lemma_release_props(m: RegistryModel, name: Seq<char>)
    requires
        wf_model(m),
    ensures
        wf_model(release_spec(m, name)),
        release_spec(m, name).fresh == m.fresh,
        count_at(release_spec(m, name).rooms, name) == if count_at(m.rooms, name) > 0 {
            (count_at(m.rooms, name) - 1) as nat
        } else {
            0nat
        },
        has_room(release_spec(m, name).rooms, name) <==> count_at(m.rooms, name) > 1,
        forall|other: Seq<char>|
            other != name ==> #[trigger] count_at(release_spec(m, name).rooms, other) == count_at(
                m.rooms,
                other,
            ) && has_room(release_spec(m, name).rooms, other) == has_room(m.rooms, other)
                && channel_at(release_spec(m, name).rooms, other) == channel_at(m.rooms, other),
{
    lemma_index_of(m.rooms, name);
    let i = index_of(m.rooms, name);
    let m2 = release_spec(m, name);
    if i < 0 {
    } else if m.rooms[i].count <= 1 {
        lemma_release_removed(m, name, i);
        assert forall|other: Seq<char>| other != name implies #[trigger] count_at(
            m2.rooms,
            other,
        ) == count_at(m.rooms, other) && has_room(m2.rooms, other) == has_room(m.rooms, other)
            && channel_at(m2.rooms, other) == channel_at(m.rooms, other) by {
            lemma_remove_other(m.rooms, i, other);
        }
    } else {
        lemma_index_of_same_names(m2.rooms, m.rooms, name);
        assert forall|other: Seq<char>| other != name implies #[trigger] count_at(
            m2.rooms,
            other,
        ) == count_at(m.rooms, other) && has_room(m2.rooms, other) == has_room(m.rooms, other)
            && channel_at(m2.rooms, other) == channel_at(m.rooms, other) by {
            lemma_index_of_same_names(m2.rooms, m.rooms, other);
            lemma_index_of(m.rooms, other);
        }
    }
}

/// Removing the entry at `i` leaves every other name's entry untouched.
proof fn lemma_remove_other(rooms: Seq<RoomModel>, i: int, other: Seq<char>)
    requires
        wf_rooms(rooms),
        0 <= i < rooms.len(),
        other != rooms[i].name,
    ensures
        count_at(rooms.remove(i), other) == count_at(rooms, other),
        has_room(rooms.remove(i), other) == has_room(rooms, other),
        channel_at(rooms.remove(i), other) == channel_at(rooms, other),
{
    let r2 = rooms.remove(i);
    lemma_index_of(rooms, other);
    lemma_index_of(r2, other);
    let j = index_of(rooms, other);
    let j2 = index_of(r2, other);
    if j >= 0 {
        let j_in_r2 = if j < i {
            j
        } else {
            j - 1
        };
        assert(r2[j_in_r2] == rooms[j]);
        assert(j2 >= 0);
        let back = if j2 < i {
            j2
        } else {
            j2 + 1
        };
        assert(r2[j2] == rooms[back]);
        assert(back == j);
    } else {
        if j2 >= 0 {
            let back = if j2 < i {
                j2
            } else {
                j2 + 1
            };
            assert(r2[j2] == rooms[back]);
        }
    }
}

/// A room stands in a well-formed registry if and only if its subscriber
/// count is positive.
pub proof fn lemma_room_present_iff_counted(m: RegistryModel)
    requires
        wf_model(m),
    ensures
        forall|name: Seq<char>|
            #![trigger has_room(m.rooms, name)]
            #![trigger count_at(m.rooms, name)]
            has_room(m.rooms, name) <==> count_at(m.rooms, name) > 0,
{
    assert forall|name: Seq<char>|
        has_room(m.rooms, name) <==> #[trigger] count_at(m.rooms, name) > 0 by {
        lemma_index_of(m.rooms, name);
    }
}

/// One live room of the executable registry.
struct RoomEntry {
    name: String,
    count: u64,
    channel: u64,
}

impl RoomEntry {
    spec fn model(self) -> RoomModel {
        RoomModel { name: self.name@, count: self.count as nat, channel: self.channel as nat }
    }
}

/// Outcome of a release: the room was absent (a guarded no-op), its count
/// was decremented, or the last holder left and the room was removed
/// together with its bridge, identified by `channel`.
pub enum ReleaseOutcome {
    Absent,
    Decremented,
    Removed { channel: u64 },
}

/// The process-wide table of live rooms.
pub struct RoomRegistry {
    entries: Vec<RoomEntry>,
    next_channel: u64,
}

impl View for RoomRegistry {
    type V = RegistryModel;

    closed spec fn view(&self) -> RegistryModel {
        RegistryModel {
            rooms: self.entries@.map_values(|e: RoomEntry| e.model()),
            fresh: self.next_channel as nat,
        }
    }
}

impl RoomRegistry {
    /// Well-formedness of the registry as held by the executable table.
    pub open spec fn wf(self) -> bool {
        wf_model(self@)
    }

    /// An empty registry: no rooms, no channel identity handed out yet.
    pub fn new() -> (r: RoomRegistry)
        ensures
            r.wf(),
            r@.rooms =~= Seq::<RoomModel>::empty(),
            r@.fresh == 0,
    {
        let r = RoomRegistry { entries: Vec::new(), next_channel: 0 };
        proof {
            assert(r@.rooms =~= Seq::<RoomModel>::empty());
        }
        r
    }

    /// Index of the entry for `room`, if one is present.
    fn find(&self, room: &String) -> (r: Option<usize>)
        ensures
            match r {
                Some(i) => index_of(self@.rooms, room@) == i as int,
                None => index_of(self@.rooms, room@) == -1,
            },
    {
        proof {
            lemma_index_of(self@.rooms, room@);
        }
        let n = self.entries.len();
        let mut i: usize = 0;
        while i < n
            invariant
                i <= n,
                n == self.entries.len(),
                forall|j: int| 0 <= j < i ==> (#[trigger] self@.rooms[j]).name != room@,
                -1 <= index_of(self@.rooms, room@) < n as int,
                index_of(self@.rooms, room@) >= 0 ==> self@.rooms[index_of(
                    self@.rooms,
                    room@,
                )].name == room@,
                forall|j: int|
                    0 <= j < n as int && (#[trigger] self@.rooms[j]).name == room@ ==> index_of(
                        self@.rooms,
                        room@,
                    ) >= 0 && index_of(self@.rooms, room@) <= j,
            decreases n - i,
        {
            if self.entries[i].name == *room {
                proof {
                    assert(self@.rooms[i as int].name == room@);
                }
                return Some(i);
            }
            i += 1;
        }
        None
    }

    /// Whether a room by this name is live.
    pub fn contains(&self, room: &String) -> (r: bool)
        ensures
            r == has_room(self@.rooms, room@),
    {
        self.find(room).is_some()
    }

    /// Whether one more acquire of `room` fits the registry's counters.
    /// Callers that cannot know the counts test this before `acquire`.
    pub fn can_acquire(&self, room: &String) -> (r: bool)
        ensures
            r == if has_room(self@.rooms, room@) {
                count_at(self@.rooms, room@) < u64::MAX
            } else {
                self@.fresh < u64::MAX
            },
    {
        proof {
            lemma_index_of(self@.rooms, room@);
        }
        match self.find(room) {
            Some(i) => self.entries[i].count < u64::MAX,
            None => self.next_channel < u64::MAX,
        }
    }

    /// Acquire a room for one new subscriber: create it with a fresh
    /// channel when absent, bump its count when present. Returns the
    /// channel identity to attach the new forwarding task to, and whether
    /// the room (with its bus bridge) was newly created.
    pub fn acquire(&mut self, room: &String) -> (r: (u64, bool))
        requires
            old(self).wf(),
            has_room(old(self)@.rooms, room@) ==> count_at(old(self)@.rooms, room@) < u64::MAX,
            !has_room(old(self)@.rooms, room@) ==> old(self)@.fresh < u64::MAX,
        ensures
            final(self).wf(),
            final(self)@ =~= acquire_spec(old(self)@, room@),
            r.1 == !has_room(old(self)@.rooms, room@),
            has_room(final(self)@.rooms, room@),
            r.0 as nat == channel_at(final(self)@.rooms, room@),
            count_at(final(self)@.rooms, room@) == count_at(old(self)@.rooms, room@) + 1,
    {
        proof {
            lemma_index_of(self@.rooms, room@);
        }
        match self.find(room) {
            Some(i) => {
                let c = self.entries[i].count;
                let chan = self.entries[i].channel;
                self.entries[i].count = c + 1;
                proof {
                    let gi = index_of(old(self)@.rooms, room@);
                    assert(self@.rooms =~= acquire_spec(old(self)@, room@).rooms);
                    lemma_index_of(self@.rooms, room@);
                    assert(index_of(self@.rooms, room@) == gi) by {
                        assert(self@.rooms[gi].name == room@);
                        assert(forall|j: int|
                            0 <= j < gi ==> (#[trigger] self@.rooms[j]).name != room@);
                    }
                }
                (chan, false)
            },
            None => {
                let chan = self.next_channel;
                self.next_channel = chan + 1;
                self.entries.push(RoomEntry { name: room.clone(), count: 1, channel: chan });
                proof {
                    let m0 = old(self)@;
                    assert(self@.rooms =~= acquire_spec(m0, room@).rooms);
                    lemma_index_of(self@.rooms, room@);
                    let n = m0.rooms.len() as int;
                    assert(self@.rooms[n].name == room@);
                    assert(index_of(self@.rooms, room@) == n) by {
                        assert(forall|j: int|
                            0 <= j < n ==> (#[trigger] self@.rooms[j]).name != room@);
                    }
                }
                (chan, true)
            },
        }
    }

    /// Release one subscriber's hold on a room: decrement its count, and
    /// remove the room when the count reaches 0 — the caller must then
    /// stop the bridge identified by the returned channel. Releasing an
    /// absent room is a guarded no-op.
    pub fn release(&mut self, room: &String) -> (r: ReleaseOutcome)
        requires
            old(self).wf(),
        ensures
            final(self).wf(),
            final(self)@ =~= release_spec(old(self)@, room@),
            match r {
                ReleaseOutcome::Absent => !has_room(old(self)@.rooms, room@),
                ReleaseOutcome::Decremented => count_at(old(self)@.rooms, room@) > 1,
                ReleaseOutcome::Removed { channel } => count_at(old(self)@.rooms, room@) == 1
                    && channel as nat == channel_at(old(self)@.rooms, room@) && !has_room(
                    final(self)@.rooms,
                    room@,
                ),
            },
            count_at(final(self)@.rooms, room@) == if count_at(old(self)@.rooms, room@) > 0 {
                count_at(old(self)@.rooms, room@) - 1
            } else {
                0
            },
    {
        proof {
            lemma_index_of(self@.rooms, room@);
        }
        match self.find(room) {
            Some(i) => {
                let ghost m0 = old(self)@;
                let ghost gi = index_of(m0.rooms, room@);
                if self.entries[i].count <= 1 {
                    let e = self.entries.remove(i);
                    proof {
                        assert(self@.rooms =~= release_spec(m0, room@).rooms);
                        lemma_release_removed(m0, room@, gi);
                    }
                    ReleaseOutcome::Removed { channel: e.channel }
                } else {
                    let c = self.entries[i].count;
                    self.entries[i].count = c - 1;
                    proof {
                        assert(self@.rooms =~= release_spec(m0, room@).rooms);
                        lemma_index_of(self@.rooms, room@);
                        assert(index_of(self@.rooms, room@) == gi) by {
                            assert(self@.rooms[gi].name == room@);
                            assert(forall|j: int|
                                0 <= j < gi ==> (#[trigger] self@.rooms[j]).name != room@);
                        }
                    }
                    ReleaseOutcome::Decremented
                }
            },
            None => ReleaseOutcome::Absent,
        }
    }
}

/// After removing the only entry for a name from a well-formed room
/// table, the name is absent and the table is still well formed.
proof fn lemma_release_removed(m: RegistryModel, name: Seq<char>, gi: int)
    requires
        wf_model(m),
        gi == index_of(m.rooms, name),
        gi >= 0,
    ensures
        !has_room(m.rooms.remove(gi), name),
        wf_model(RegistryModel { rooms: m.rooms.remove(gi), fresh: m.fresh }),
{
    lemma_index_of(m.rooms, name);
    let r2 = m.rooms.remove(gi);
    lemma_index_of(r2, name);
    assert forall|j: int| 0 <= j < r2.len() implies (#[trigger] r2[j]).name != name by {
        if j < gi {
            assert(r2[j] == m.rooms[j]);
        } else {
            assert(r2[j] == m.rooms[j + 1]);
        }
    }
}

} // verus!
