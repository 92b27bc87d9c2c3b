//! Rooms (graph partitions) and portal detection.

use vstd::prelude::*;
use crate::graph::{Graph, GraphView, NodeId, RoomId, lemma_row_bounds};

verus! {

/// Room metadata.
#[derive(Debug, Clone, Copy, PartialEq, Eq, Structural)]
pub struct Room {
    pub id: RoomId,
    /// Starting index of this room's nodes in a room-contiguous layout.
    pub node_start: usize,
    /// Number of nodes in this room.
    pub node_count: usize,
}

/// A collection of rooms with a lookup table from room id to position.
#[derive(Debug, Clone)]
pub struct RoomCollection {
    pub rooms: Vec<Room>,
    /// `room_index[id]` is the position of room `id` in `rooms`, or `usize::MAX`.
    pub room_index: Vec<usize>,
}

/// Number of occurrences of `x` in `s`.
pub open spec fn count_in(s: Seq<RoomId>, x: RoomId) -> nat
    decreases s.len(),
{
    if s.len() == 0 {
        0
    } else {
        count_in(s.drop_last(), x) + if s.last() == x {
            1nat
        } else {
            0nat
        }
    }
}

/// The largest value in `s`, 0 when empty.
pub open spec fn max_of(s: Seq<RoomId>) -> RoomId
    decreases s.len(),
{
    if s.len() == 0 {
        0
    } else {
        let m = max_of(s.drop_last());
        if s.last() > m {
            s.last()
        } else {
            m
        }
    }
}

/// Index of the first occurrence of `x` in `s` (`s.len()` when absent).
pub open spec fn first_index(s: Seq<RoomId>, x: RoomId) -> int
    decreases s.len(),
{
    if s.len() == 0 {
        0
    } else if s[0] == x {
        0
    } else {
        1 + first_index(s.drop_first(), x)
    }
}

/// Sum of the node counts of `rooms`.
pub open spec fn count_sum(rooms: Seq<Room>) -> nat
    decreases rooms.len(),
{
    if rooms.len() == 0 {
        0
    } else {
        count_sum(rooms.drop_last()) + rooms.last().node_count as nat
    }
}

/// `room_index` maps each room's id to its position and every other id to
/// `usize::MAX`.
pub open spec fn index_matches(rooms: Seq<Room>, room_index: Seq<usize>) -> bool {
    &&& forall|k: int| 0 <= k < rooms.len() ==> #[trigger] rooms[k].id < room_index.len()
        && room_index[rooms[k].id as int] == k
    &&& forall|id: int|
        0 <= id < room_index.len() && #[trigger] room_index[id] != usize::MAX ==> 0
            <= room_index[id] < rooms.len() && rooms[room_index[id] as int].id == id
}

/// The rooms built from a room map: one per distinct id, ordered by first
/// appearance, each counting the nodes of its id, laid out contiguously.
pub open spec fn rooms_of(room_map: Seq<RoomId>, rooms: Seq<Room>) -> bool {
    &&& partial_order(room_map, rooms)
    &&& partial_cover(room_map, room_map.len() as int, rooms)
    &&& full_counts(room_map, rooms)
    &&& contiguous_layout(rooms)
}

/// Every room's id occurs in the room map, as many times as its node count.
pub open spec fn full_counts(room_map: Seq<RoomId>, rooms: Seq<Room>) -> bool {
    forall|k: int|
        0 <= k < rooms.len() ==> #[trigger] room_map.contains(rooms[k].id)
            && rooms[k].node_count == count_in(room_map, rooms[k].id)
}

/// Each room starts where the previous ones end.
pub open spec fn contiguous_layout(rooms: Seq<Room>) -> bool {
    forall|k: int|
        0 <= k < rooms.len() ==> #[trigger] rooms[k].node_start == count_sum(rooms.subrange(0, k))
}

impl RoomCollection {
    /// Builds the room collection of a room map (`room_map[node] = room id`):
    /// one room per distinct id, in order of first appearance, with its node
    /// count and its start in a room-contiguous layout, plus the lookup table
    /// `room_index` of length `max id + 1`.
    pub fn from_room_map(room_map: &[RoomId]) -> (r: RoomCollection)
        requires
            forall|i: int| 0 <= i < room_map@.len() ==> room_map@[i] < usize::MAX,
        ensures
            rooms_of(room_map@, r.rooms@),
            r.room_index@.len() == max_of(room_map@) + 1,
            index_matches(r.rooms@, r.room_index@),
    {
        // Largest id.
        let mut max_id: RoomId = 0;
        let mut i: usize = 0;
        while i < room_map.len()
            invariant
                i <= room_map@.len(),
                max_id == max_of(room_map@.subrange(0, i as int)),
            decreases room_map@.len() - i,
        {
            proof {
                assert(room_map@.subrange(0, i + 1).drop_last() =~= room_map@.subrange(0, i as int));
            }
            if room_map[i] > max_id {
                max_id = room_map[i];
            }
            i = i + 1;
        }
        proof {
            assert(room_map@.subrange(0, room_map@.len() as int) =~= room_map@);
            lemma_max_of_member(room_map@);
        }
        let size: usize = max_id as usize + 1;
        let mut room_index: Vec<usize> = vec![usize::MAX; size];
        let mut rooms: Vec<Room> = Vec::new();
        let mut j: usize = 0;
        while j < room_map.len()
            invariant
                j <= room_map@.len(),
                room_index@.len() == size,
                size == max_of(room_map@) + 1,
                forall|x: int| 0 <= x < room_map@.len() ==> room_map@[x] <= max_of(room_map@),
                index_matches(rooms@, room_index@),
                rooms_partial(room_map@, j as int, rooms@),
                count_sum(rooms@) == j,
                rooms@.len() <= j,
            decreases room_map@.len() - j,
        {
            let id = room_map[j];
            let idx = room_index[id as usize];
            proof {
                lemma_count_step(room_map@, j as int);
            }
            if idx == usize::MAX {
                let ghost old_rooms = rooms@;
                let ghost old_index = room_index@;
                proof {
                    lemma_absent_not_in_prefix(room_map@, j as int, rooms@, room_index@);
                    lemma_count_sum_push(rooms@, Room { id, node_start: 0, node_count: 1 });
                }
                rooms.push(Room { id, node_start: 0, node_count: 1 });
                room_index.set(id as usize, rooms.len() - 1);
                proof {
                    lemma_push_new_room(
                        room_map@,
                        j as int,
                        old_rooms,
                        rooms@,
                        old_index,
                        room_index@,
                    );
                }
            } else {
                let room = rooms[idx];
                let ghost old_rooms = rooms@;
                proof {
                    assert(room_index@[id as int] == idx);
                    assert(rooms@[idx as int].id == id);
                    lemma_count_le(room_map@.subrange(0, j as int), id);
                    assert(room_map@.subrange(0, j as int).contains(rooms@[idx as int].id));
                    assert(rooms@[idx as int].node_count <= j);
                    lemma_count_sum_bump(
                        rooms@,
                        idx as int,
                        Room { id: room.id, node_start: 0, node_count: (room.node_count + 1) as usize },
                    );
                }
                rooms.set(idx, Room { id: room.id, node_start: 0, node_count: room.node_count + 1 });
                proof {
                    lemma_bump_room(room_map@, j as int, old_rooms, rooms@, room_index@, idx as int);
                }
            }
            j = j + 1;
        }
        // Lay the rooms out contiguously.
        let total_len = room_map.len();
        let mut start: usize = 0;
        let mut k: usize = 0;
        let ghost counted = rooms@;
        proof {
            assert(room_map@.subrange(0, room_map@.len() as int) =~= room_map@);
        }
        while k < rooms.len()
            invariant
                k <= rooms@.len(),
                rooms@.len() == counted.len(),
                count_sum(counted) == room_map@.len(),
                room_map@.len() == total_len,
                forall|x: int|
                    0 <= x < rooms@.len() ==> #[trigger] rooms@[x].id == counted[x].id
                        && rooms@[x].node_count == counted[x].node_count,
                forall|x: int|
                    0 <= x < k ==> #[trigger] rooms@[x].node_start == count_sum(
                        counted.subrange(0, x),
                    ),
                start == count_sum(counted.subrange(0, k as int)),
            decreases rooms@.len() - k,
        {
            let room = rooms[k];
            proof {
                assert(rooms@[k as int].id == counted[k as int].id);
                assert(counted.subrange(0, k + 1).drop_last() =~= counted.subrange(0, k as int));
                lemma_count_sum_prefix_le(counted, (k + 1) as int);
                assert(counted.subrange(0, k + 1).last() == counted[k as int]);
                assert(count_sum(counted.subrange(0, k + 1)) == start + room.node_count);
            }
            rooms.set(k, Room { id: room.id, node_start: start, node_count: room.node_count });
            start = start + room.node_count;
            k = k + 1;
        }
        proof {
            lemma_finish_rooms(room_map@, counted, rooms@, room_index@);
        }
        RoomCollection { rooms, room_index }
    }

    /// The room with id `room_id`, if any.
    pub fn get_room(&self, room_id: RoomId) -> (r: Option<&Room>)
        ensures
            r is Some <==> (room_id < self.room_index@.len() && self.room_index@[room_id as int]
                != usize::MAX && self.room_index@[room_id as int] < self.rooms@.len()),
            r matches Some(room) ==> *room == self.rooms@[self.room_index@[room_id as int] as int],
    {
        let idx = room_id as usize;
        if idx < self.room_index.len() {
            let room_idx = self.room_index[idx];
            if room_idx != usize::MAX {
                if room_idx < self.rooms.len() {
                    return Some(&self.rooms[room_idx]);
                }
            }
        }
        None
    }

    /// Number of rooms.
    pub fn num_rooms(&self) -> (n: usize)
        ensures
            n == self.rooms@.len(),
    {
        self.rooms.len()
    }
}

pub proof fn lemma_max_of_member(s: Seq<RoomId>)
    ensures
        forall|i: int| 0 <= i < s.len() ==> s[i] <= max_of(s),
        s.len() > 0 ==> s.contains(max_of(s)),
        s.len() == 0 ==> max_of(s) == 0,
    decreases s.len(),
{
    if s.len() > 0 {
        let init = s.drop_last();
        lemma_max_of_member(init);
        assert forall|i: int| 0 <= i < s.len() implies s[i] <= max_of(s) by {
            if i < s.len() - 1 {
                assert(s[i] == init[i]);
            }
        }
        if s.last() > max_of(init) {
            assert(s[s.len() - 1] == max_of(s));
        } else if init.len() > 0 {
            let w = choose|i: int| 0 <= i < init.len() && init[i] == max_of(init);
            assert(s[w] == max_of(s));
        } else {
            assert(s[0] == s.last());
        }
    }
}

proof fn lemma_count_step(s: Seq<RoomId>, j: int)
    requires
        0 <= j < s.len(),
    ensures
        forall|x: RoomId|
            #[trigger] count_in(s.subrange(0, j + 1), x) == count_in(s.subrange(0, j), x) + if s[j]
                == x {
                1nat
            } else {
                0nat
            },
{
    assert(s.subrange(0, j + 1).drop_last() =~= s.subrange(0, j));
}

proof fn lemma_count_le(s: Seq<RoomId>, x: RoomId)
    ensures
        count_in(s, x) <= s.len(),
    decreases s.len(),
{
    if s.len() > 0 {
        lemma_count_le(s.drop_last(), x);
    }
}

pub proof fn lemma_first_index(s: Seq<RoomId>, x: RoomId)
    ensures
        0 <= first_index(s, x) <= s.len(),
        first_index(s, x) < s.len() ==> s[first_index(s, x)] == x,
        forall|i: int| 0 <= i < first_index(s, x) ==> s[i] != x,
        forall|i: int| 0 <= i < s.len() && s[i] == x ==> first_index(s, x) <= i,
    decreases s.len(),
{
    if s.len() > 0 && s[0] != x {
        let t = s.drop_first();
        lemma_first_index(t, x);
        assert forall|i: int| 0 <= i < first_index(s, x) implies s[i] != x by {
            if i > 0 {
                assert(s[i] == t[i - 1]);
            }
        }
        assert forall|i: int| 0 <= i < s.len() && s[i] == x implies first_index(s, x) <= i by {
            if i > 0 {
                assert(t[i - 1] == x);
            }
        }
    }
}

proof fn lemma_count_sum_push(rooms: Seq<Room>, r: Room)
    ensures
        count_sum(rooms.push(r)) == count_sum(rooms) + r.node_count,
{
    assert(rooms.push(r).drop_last() =~= rooms);
}

proof fn lemma_count_sum_bump(rooms: Seq<Room>, idx: int, r: Room)
    requires
        0 <= idx < rooms.len(),
        r.node_count == rooms[idx].node_count + 1,
    ensures
        count_sum(rooms.update(idx, r)) == count_sum(rooms) + 1,
    decreases rooms.len(),
{
    let u = rooms.update(idx, r);
    if idx == rooms.len() - 1 {
        assert(u.drop_last() =~= rooms.drop_last());
    } else {
        lemma_count_sum_bump(rooms.drop_last(), idx, r);
        assert(u.drop_last() =~= rooms.drop_last().update(idx, r));
    }
}

proof fn lemma_count_sum_eq(a: Seq<Room>, b: Seq<Room>)
    requires
        a.len() == b.len(),
        forall|x: int| 0 <= x < a.len() ==> #[trigger] a[x].node_count == b[x].node_count,
    ensures
        count_sum(a) == count_sum(b),
    decreases a.len(),
{
    if a.len() > 0 {
        lemma_count_sum_eq(a.drop_last(), b.drop_last());
    }
}

proof fn lemma_count_sum_prefix_le(rooms: Seq<Room>, k: int)
    requires
        0 <= k <= rooms.len(),
    ensures
        count_sum(rooms.subrange(0, k)) <= count_sum(rooms),
    decreases rooms.len() - k,
{
    if k < rooms.len() {
        assert(rooms.subrange(0, k + 1).drop_last() =~= rooms.subrange(0, k));
        lemma_count_sum_prefix_le(rooms, k + 1);
    } else {
        assert(rooms.subrange(0, k) =~= rooms);
    }
}

proof fn lemma_absent_not_in_prefix(
    s: Seq<RoomId>,
    j: int,
    rooms: Seq<Room>,
    room_index: Seq<usize>,
)
    requires
        0 <= j < s.len(),
        s[j] < room_index.len(),
        room_index[s[j] as int] == usize::MAX,
        index_matches(rooms, room_index),
        rooms_partial(s, j, rooms),
        rooms.len() <= j,
        s.len() <= usize::MAX,
    ensures
        !s.subrange(0, j).contains(s[j]),
        first_index(s, s[j]) == j,
        forall|k: int| 0 <= k < rooms.len() ==> rooms[k].id != s[j],
{
    let id = s[j];
    assert forall|k: int| 0 <= k < rooms.len() implies rooms[k].id != id by {
        assert(room_index[rooms[k].id as int] == k);
    }
    if s.subrange(0, j).contains(id) {
        let i = choose|i: int| 0 <= i < j && s.subrange(0, j)[i] == id;
        assert(s[i] == id);
        let k = choose|k: int| 0 <= k < rooms.len() && rooms[k].id == s[i];
        assert(false);
    }
    lemma_first_index(s, id);
    if first_index(s, id) < j {
        assert(s.subrange(0, j)[first_index(s, id)] == id);
    }
}

proof fn lemma_count_absent(s: Seq<RoomId>, x: RoomId)
    requires
        !s.contains(x),
    ensures
        count_in(s, x) == 0,
    decreases s.len(),
{
    if s.len() > 0 {
        assert(!s.drop_last().contains(x)) by {
            if s.drop_last().contains(x) {
                let i = choose|i: int| 0 <= i < s.drop_last().len() && s.drop_last()[i] == x;
                assert(s[i] == x);
            }
        }
        lemma_count_absent(s.drop_last(), x);
        assert(s[s.len() - 1] != x);
    }
}

proof fn lemma_contains_grow(s: Seq<RoomId>, j: int, x: RoomId)
    requires
        0 <= j < s.len(),
        s.subrange(0, j).contains(x),
    ensures
        s.subrange(0, j + 1).contains(x),
{
    let i = choose|i: int| 0 <= i < j && s.subrange(0, j)[i] == x;
    assert(s.subrange(0, j + 1)[i] == x);
}

proof fn lemma_push_new_room(
    s: Seq<RoomId>,
    j: int,
    old_rooms: Seq<Room>,
    rooms: Seq<Room>,
    old_room_index: Seq<usize>,
    room_index: Seq<usize>,
)
    requires
        0 <= j < s.len(),
        rooms == old_rooms.push(Room { id: s[j], node_start: 0, node_count: 1 }),
        room_index.len() == old_room_index.len(),
        s[j] < room_index.len(),
        old_rooms.len() < usize::MAX,
        room_index == old_room_index.update(s[j] as int, old_rooms.len() as usize),
        index_matches(old_rooms, old_room_index),
        rooms_partial(s, j, old_rooms),
        !s.subrange(0, j).contains(s[j]),
        first_index(s, s[j]) == j,
        forall|k: int| 0 <= k < old_rooms.len() ==> old_rooms[k].id != s[j],
        forall|x: RoomId|
            #[trigger] count_in(s.subrange(0, j + 1), x) == count_in(s.subrange(0, j), x) + if s[j]
                == x {
                1nat
            } else {
                0nat
            },
    ensures
        index_matches(rooms, room_index),
        rooms_partial(s, j + 1, rooms),
{
    let n = old_rooms.len() as int;
    let pre = s.subrange(0, j);
    let pre1 = s.subrange(0, j + 1);
    assert forall|k: int| 0 <= k < rooms.len() implies #[trigger] rooms[k].id < room_index.len()
        && room_index[rooms[k].id as int] == k by {
        if k < n {
            assert(rooms[k] == old_rooms[k]);
            assert(old_room_index[old_rooms[k].id as int] == k);
        }
    }
    assert forall|id: int|
        0 <= id < room_index.len() && #[trigger] room_index[id] != usize::MAX implies 0
        <= room_index[id] < rooms.len() && rooms[room_index[id] as int].id == id by {
        if id != s[j] {
            assert(room_index[id] == old_room_index[id]);
            assert(rooms[old_room_index[id] as int] == old_rooms[old_room_index[id] as int]);
        }
    }
    assert forall|k: int, l: int| 0 <= k < l < rooms.len() implies #[trigger] first_index(
        s,
        rooms[k].id,
    ) < #[trigger] first_index(s, rooms[l].id) by {
        assert(rooms[k] == old_rooms[k]);
        if l < n {
            assert(rooms[l] == old_rooms[l]);
        } else {
            assert(rooms[l].id == s[j]);
            assert(pre.contains(old_rooms[k].id));
        }
    }
    assert forall|i: int| 0 <= i < j + 1 implies has_room(rooms, #[trigger] s[i]) by {
        if i < j {
            let k = choose|k: int| 0 <= k < old_rooms.len() && old_rooms[k].id == s[i];
            assert(rooms[k] == old_rooms[k]);
        } else {
            assert(rooms[n].id == s[i]);
        }
    }
    assert forall|k: int| #![trigger rooms[k]] 0 <= k < rooms.len() implies {
        &&& pre1.contains(rooms[k].id)
        &&& first_index(s, rooms[k].id) < j + 1
        &&& rooms[k].node_count == count_in(pre1, rooms[k].id)
    } by {
        if k < n {
            assert(pre.contains(old_rooms[k].id));
            assert(rooms[k] == old_rooms[k]);
            assert(pre.contains(old_rooms[k].id));
            lemma_contains_grow(s, j, old_rooms[k].id);
            assert(count_in(pre1, rooms[k].id) == count_in(pre, rooms[k].id));
        } else {
            assert(pre1[j] == s[j]);
            lemma_count_absent(pre, s[j]);
            assert(count_in(pre1, s[j]) == count_in(pre, s[j]) + 1);
        }
    }
    assert(partial_order(s, rooms));
    assert(partial_cover(s, j + 1, rooms));
    assert(partial_counts(s, j + 1, rooms));
}

proof fn lemma_bump_room(
    s: Seq<RoomId>,
    j: int,
    old_rooms: Seq<Room>,
    rooms: Seq<Room>,
    room_index: Seq<usize>,
    idx: int,
)
    requires
        0 <= j < s.len(),
        0 <= idx < old_rooms.len(),
        old_rooms[idx].id == s[j],
        old_rooms[idx].node_count < usize::MAX,
        rooms == old_rooms.update(
            idx,
            Room { id: old_rooms[idx].id, node_start: 0, node_count: (old_rooms[idx].node_count + 1) as usize },
        ),
        index_matches(old_rooms, room_index),
        rooms_partial(s, j, old_rooms),
        forall|x: RoomId|
            #[trigger] count_in(s.subrange(0, j + 1), x) == count_in(s.subrange(0, j), x) + if s[j]
                == x {
                1nat
            } else {
                0nat
            },
    ensures
        index_matches(rooms, room_index),
        rooms_partial(s, j + 1, rooms),
{
    let pre = s.subrange(0, j);
    let pre1 = s.subrange(0, j + 1);
    assert forall|k: int| 0 <= k < rooms.len() implies #[trigger] rooms[k].id < room_index.len()
        && room_index[rooms[k].id as int] == k by {
        assert(rooms[k].id == old_rooms[k].id);
    }
    assert forall|id: int|
        0 <= id < room_index.len() && #[trigger] room_index[id] != usize::MAX implies 0
        <= room_index[id] < rooms.len() && rooms[room_index[id] as int].id == id by {
        assert(rooms[room_index[id] as int].id == old_rooms[room_index[id] as int].id);
    }
    assert forall|k: int, l: int| 0 <= k < l < rooms.len() implies #[trigger] first_index(
        s,
        rooms[k].id,
    ) < #[trigger] first_index(s, rooms[l].id) by {
        assert(rooms[k].id == old_rooms[k].id);
        assert(rooms[l].id == old_rooms[l].id);
    }
    assert forall|i: int| 0 <= i < j + 1 implies has_room(rooms, #[trigger] s[i]) by {
        if i < j {
            let k = choose|k: int| 0 <= k < old_rooms.len() && old_rooms[k].id == s[i];
            assert(rooms[k].id == old_rooms[k].id);
        } else {
            assert(rooms[idx].id == s[i]);
        }
    }
    assert forall|k: int| #![trigger rooms[k]] 0 <= k < rooms.len() implies {
        &&& s.subrange(0, j + 1).contains(rooms[k].id)
        &&& first_index(s, rooms[k].id) < j + 1
        &&& rooms[k].node_count == count_in(s.subrange(0, j + 1), rooms[k].id)
    } by {
        assert(rooms[k].id == old_rooms[k].id);
        assert(pre.contains(old_rooms[k].id));
        assert(first_index(s, old_rooms[k].id) < j);
        lemma_contains_grow(s, j, old_rooms[k].id);
        assert(old_rooms[k].node_count == count_in(pre, old_rooms[k].id));
        if k != idx {
            assert(room_index[old_rooms[k].id as int] == k);
            assert(room_index[old_rooms[idx].id as int] == idx);
            assert(old_rooms[k].id != s[j]);
            assert(rooms[k] == old_rooms[k]);
            assert(count_in(pre1, rooms[k].id) == count_in(pre, rooms[k].id));
        } else {
            assert(rooms[k].node_count == old_rooms[k].node_count + 1);
            assert(count_in(pre1, rooms[k].id) == count_in(pre, rooms[k].id) + 1);
        }
    }
    assert(partial_order(s, rooms));
    assert(partial_cover(s, j + 1, rooms));
    assert(partial_counts(s, j + 1, rooms));
}

proof fn lemma_finish_rooms(
    s: Seq<RoomId>,
    counted: Seq<Room>,
    rooms: Seq<Room>,
    room_index: Seq<usize>,
)
    requires
        rooms_partial(s, s.len() as int, counted),
        index_matches(counted, room_index),
        rooms.len() == counted.len(),
        forall|x: int|
            0 <= x < rooms.len() ==> #[trigger] rooms[x].id == counted[x].id && rooms[x].node_count
                == counted[x].node_count,
        forall|x: int|
            0 <= x < rooms.len() ==> #[trigger] rooms[x].node_start == count_sum(
                counted.subrange(0, x),
            ),
    ensures
        rooms_of(s, rooms),
        index_matches(rooms, room_index),
{
    assert(s.subrange(0, s.len() as int) =~= s);
    assert forall|k: int| 0 <= k < rooms.len() implies #[trigger] rooms[k].id < room_index.len()
        && room_index[rooms[k].id as int] == k by {
        assert(rooms[k].id == counted[k].id);
    }
    assert forall|id: int|
        0 <= id < room_index.len() && #[trigger] room_index[id] != usize::MAX implies 0
        <= room_index[id] < rooms.len() && rooms[room_index[id] as int].id == id by {
        assert(rooms[room_index[id] as int].id == counted[room_index[id] as int].id);
    }
    assert forall|k: int, l: int| 0 <= k < l < rooms.len() implies #[trigger] first_index(
        s,
        rooms[k].id,
    ) < #[trigger] first_index(s, rooms[l].id) by {
        assert(rooms[k].id == counted[k].id);
        assert(rooms[l].id == counted[l].id);
    }
    assert forall|i: int| 0 <= i < s.len() as int implies has_room(rooms, #[trigger] s[i]) by {
        assert(has_room(counted, s[i]));
        let k = choose|k: int| 0 <= k < counted.len() && counted[k].id == s[i];
        assert(rooms[k].id == counted[k].id);
    }
    assert forall|k: int| 0 <= k < rooms.len() implies #[trigger] s.contains(rooms[k].id)
        && rooms[k].node_count == count_in(s, rooms[k].id) by {
        assert(rooms[k].id == counted[k].id);
        assert(s.subrange(0, s.len() as int).contains(counted[k].id));
        assert(counted[k].node_count == count_in(s.subrange(0, s.len() as int), counted[k].id));
    }
    assert forall|k: int| 0 <= k < rooms.len() implies #[trigger] rooms[k].node_start == count_sum(
        rooms.subrange(0, k),
    ) by {
        assert forall|x: int| 0 <= x < rooms.subrange(0, k).len() implies #[trigger] rooms.subrange(
            0,
            k,
        )[x].node_count == counted.subrange(0, k)[x].node_count by {
            assert(rooms[x].id == counted[x].id);
        }
        lemma_count_sum_eq(rooms.subrange(0, k), counted.subrange(0, k));
    }
    assert(partial_order(s, rooms));
    assert(partial_cover(s, s.len() as int, rooms));
    assert(full_counts(s, rooms));
    assert(contiguous_layout(rooms));
}

/// Portals among the first `k` out-edges of `u`: `(u, v)` for each edge whose
/// target lies in another room than `u`.
pub open spec fn node_portals(g: GraphView, u: int, k: int) -> Seq<(NodeId, NodeId)>
    decreases k,
{
    if k <= 0 {
        Seq::empty()
    } else {
        let v = g.col_idx[g.start(u) + k - 1];
        node_portals(g, u, k - 1) + if g.room_map[v as int] != g.room_map[u] {
            seq![(u as NodeId, v)]
        } else {
            Seq::empty()
        }
    }
}

/// Portals of nodes `0..u`, in node then CSR order.
pub open spec fn portals_before(g: GraphView, u: int) -> Seq<(NodeId, NodeId)>
    decreases u,
{
    if u <= 0 {
        Seq::empty()
    } else {
        portals_before(g, u - 1) + node_portals(g, u - 1, g.end(u - 1) - g.start(u - 1))
    }
}

/// An element occurs in a concatenation exactly when it occurs in one part.
pub proof fn lemma_concat_contains<A>(s: Seq<A>, t: Seq<A>, x: A)
    ensures
        (s + t).contains(x) <==> s.contains(x) || t.contains(x),
{
    if (s + t).contains(x) {
        let i = choose|i: int| 0 <= i < (s + t).len() && (s + t)[i] == x;
        if i < s.len() {
            assert(s[i] == x);
        } else {
            assert(t[i - s.len()] == x);
        }
    }
    if s.contains(x) {
        let i = choose|i: int| 0 <= i < s.len() && s[i] == x;
        assert((s + t)[i] == x);
    }
    if t.contains(x) {
        let i = choose|i: int| 0 <= i < t.len() && t[i] == x;
        assert((s + t)[i + s.len()] == x);
    }
}

/// The portals among the first `k` out-edges of `u` are the pairs `(u, v)`
/// with `v` one of those targets, in another room than `u`.
proof fn lemma_node_portals_contains(g: GraphView, u: int, k: int, a: NodeId, b: NodeId)
    requires
        g.valid(),
        0 <= u < g.num_nodes,
        0 <= k <= g.end(u) - g.start(u),
    ensures
        node_portals(g, u, k).contains((a, b)) <==> (a as int == u && g.room_map[b as int] != g.room_map[u]
            && exists|j: int| 0 <= j < k && #[trigger] g.col_idx[g.start(u) + j] == b),
    decreases k,
{
    lemma_row_bounds(g, u);
    if k > 0 {
        lemma_node_portals_contains(g, u, k - 1, a, b);
        let v = g.col_idx[g.start(u) + k - 1];
        let tail = if g.room_map[v as int] != g.room_map[u] {
            seq![(u as NodeId, v)]
        } else {
            Seq::empty()
        };
        lemma_concat_contains(node_portals(g, u, k - 1), tail, (a, b));
        assert(u <= u32::MAX);
        if tail.contains((a, b)) {
            assert(tail[0] == (a, b));
            assert(g.col_idx[g.start(u) + (k - 1)] == b);
        }
        if a as int == u && g.room_map[b as int] != g.room_map[u] && exists|j: int|
            0 <= j < k && #[trigger] g.col_idx[g.start(u) + j] == b {
            let j = choose|j: int| 0 <= j < k && #[trigger] g.col_idx[g.start(u) + j] == b;
            if j == k - 1 {
                assert(tail[0] == (a, b));
            }
        }
    }
}

/// The portals of nodes `0..u` are the edges `(a, b)` with `a < u` whose
/// endpoints lie in different rooms.
proof fn lemma_portals_before_contains(g: GraphView, u: int, a: NodeId, b: NodeId)
    requires
        g.valid(),
        0 <= u <= g.num_nodes,
    ensures
        portals_before(g, u).contains((a, b)) <==> (a < u && g.has_edge(a as int, b as int)
            && g.room_map[a as int] != g.room_map[b as int]),
    decreases u,
{
    if u > 0 {
        lemma_portals_before_contains(g, u - 1, a, b);
        lemma_row_bounds(g, u - 1);
        let k = g.end(u - 1) - g.start(u - 1);
        lemma_node_portals_contains(g, u - 1, k, a, b);
        lemma_concat_contains(portals_before(g, u - 1), node_portals(g, u - 1, k), (a, b));
        if a as int == u - 1 {
            if g.has_edge(a as int, b as int) {
                let m = choose|m: int| g.start(a as int) <= m < g.end(a as int) && g.col_idx[m] == b;
                assert(g.col_idx[g.start(u - 1) + (m - g.start(u - 1))] == b);
            }
            if exists|j: int| 0 <= j < k && #[trigger] g.col_idx[g.start(u - 1) + j] == b {
                let j = choose|j: int| 0 <= j < k && #[trigger] g.col_idx[g.start(u - 1) + j] == b;
                assert(g.start(a as int) <= g.start(u - 1) + j < g.end(a as int));
            }
        }
    }
}

/// Portal detection finds exactly the edges that cross rooms: `(a, b)` is a
/// portal exactly when `a -> b` is an edge of the graph and `a` and `b` lie in
/// different rooms, whichever of the two ids is the smaller.
pub proof fn lemma_portals_are_crossing_edges(g: GraphView, a: NodeId, b: NodeId)
    requires
        g.valid(),
    ensures
        portals_before(g, g.num_nodes as int).contains((a, b)) <==> (a < g.num_nodes && g.has_edge(
            a as int,
            b as int,
        ) && g.room_map[a as int] != g.room_map[b as int]),
{
    lemma_portals_before_contains(g, g.num_nodes as int, a, b);
}

/// Detects portal edges: the edges `(u, v)` whose endpoints lie in different
/// rooms, in node order and, per node, in CSR order.
pub fn detect_portals(graph: &Graph) -> (r: Vec<(NodeId, NodeId)>)
    requires
        graph@.valid(),
    ensures
        r@ == portals_before(graph@, graph@.num_nodes as int),
        forall|a: NodeId, b: NodeId|
            #[trigger] r@.contains((a, b)) <==> (a < graph@.num_nodes && graph@.has_edge(a as int, b as int)
                && graph@.room_map[a as int] != graph@.room_map[b as int]),
{
    proof {
        assert forall|a: NodeId, b: NodeId|
            #[trigger] portals_before(graph@, graph@.num_nodes as int).contains((a, b)) <==> (a
                < graph@.num_nodes && graph@.has_edge(a as int, b as int) && graph@.room_map[a as int]
                != graph@.room_map[b as int]) by {
            lemma_portals_are_crossing_edges(graph@, a, b);
        }
    }
    let mut portals: Vec<(NodeId, NodeId)> = Vec::new();
    let n = graph.num_nodes();
    let mut u: usize = 0;
    while u < n
        invariant
            graph@.valid(),
            n == graph@.num_nodes,
            u <= n,
            portals@ == portals_before(graph@, u as int),
        decreases n - u,
    {
        let u_room = match graph.get_room(u as NodeId) {
            Ok(r) => r,
            Err(_) => 0,
        };
        let nbrs = graph.neighbors(u as NodeId);
        proof {
            lemma_row_bounds(graph@, u as int);
        }
        let mut k: usize = 0;
        while k < nbrs.len()
            invariant
                graph@.valid(),
                u < n,
                n == graph@.num_nodes,
                    nbrs@ == graph@.out_edges(u as int),
                k <= nbrs@.len(),
                u_room == graph@.room_map[u as int],
                portals@ == portals_before(graph@, u as int) + node_portals(graph@, u as int, k as int),
            decreases nbrs@.len() - k,
        {
            let (v, _eprops) = nbrs[k];
            proof {
                lemma_row_bounds(graph@, u as int);
                assert(v == graph@.col_idx[graph@.start(u as int) + k]);
            }
            let v_room = match graph.get_room(v) {
                Ok(r) => r,
                Err(_) => 0,
            };
            if u_room != v_room {
                portals.push((u as NodeId, v));
            }
            proof {
                assert(portals@ =~= portals_before(graph@, u as int) + node_portals(
                    graph@,
                    u as int,
                    k + 1,
                ));
            }
            k = k + 1;
        }
        proof {
            assert(portals@ =~= portals_before(graph@, u + 1));
        }
        u = u + 1;
    }
    portals
}

/// Portal flags are set when a graph is built; marking leaves the graph as it is.
pub fn mark_portals(_graph: &mut Graph)
    ensures
        final(_graph)@ == old(_graph)@,
{
}

/// `rooms` is what `from_room_map` has built after reading `room_map[..j]`
/// (before the layout pass).
pub open spec fn rooms_partial(room_map: Seq<RoomId>, j: int, rooms: Seq<Room>) -> bool {
    &&& partial_order(room_map, rooms)
    &&& partial_cover(room_map, j, rooms)
    &&& partial_counts(room_map, j, rooms)
}

/// Rooms are ordered by the first appearance of their id.
pub open spec fn partial_order(room_map: Seq<RoomId>, rooms: Seq<Room>) -> bool {
    forall|k: int, l: int|
        0 <= k < l < rooms.len() ==> #[trigger] first_index(room_map, rooms[k].id)
            < #[trigger] first_index(room_map, rooms[l].id)
}

/// Every id among the first `j` nodes has a room.
pub open spec fn partial_cover(room_map: Seq<RoomId>, j: int, rooms: Seq<Room>) -> bool {
    forall|i: int| 0 <= i < j ==> has_room(rooms, #[trigger] room_map[i])
}

/// Some room has id `id`.
pub open spec fn has_room(rooms: Seq<Room>, id: RoomId) -> bool {
    exists|k: int| 0 <= k < rooms.len() && #[trigger] rooms[k].id == id
}

/// Every room's id occurs among the first `j` nodes, that many times.
pub open spec fn partial_counts(room_map: Seq<RoomId>, j: int, rooms: Seq<Room>) -> bool {
    forall|k: int|
        #![trigger rooms[k]]
        0 <= k < rooms.len() ==> {
            &&& room_map.subrange(0, j).contains(rooms[k].id)
            &&& first_index(room_map, rooms[k].id) < j
            &&& rooms[k].node_count == count_in(room_map.subrange(0, j), rooms[k].id)
        }
}

/// Looking a room up by id in the collection built from a room map: each id
/// of the map finds the room with that id, which counts the nodes that carry
/// it; an id absent from the map finds nothing.
pub proof fn lemma_room_lookup(room_map: Seq<RoomId>, rooms: Seq<Room>, room_index: Seq<usize>, id: RoomId)
    requires
        rooms_of(room_map, rooms),
        index_matches(rooms, room_index),
        rooms.len() <= usize::MAX,
    ensures
        room_map.contains(id) ==> id < room_index.len() && room_index[id as int] != usize::MAX
            && room_index[id as int] < rooms.len() && rooms[room_index[id as int] as int].id == id
            && rooms[room_index[id as int] as int].node_count == count_in(room_map, id),
        !room_map.contains(id) && id < room_index.len() ==> room_index[id as int] == usize::MAX,
{
    if room_map.contains(id) {
        let i = choose|i: int| 0 <= i < room_map.len() && room_map[i] == id;
        assert(has_room(rooms, room_map[i]));
        let k = choose|k: int| 0 <= k < rooms.len() && #[trigger] rooms[k].id == id;
        assert(room_index[rooms[k].id as int] == k);
        assert(room_map.contains(rooms[k].id));
        assert(rooms[k].node_count == count_in(room_map, rooms[k].id));
    }
    if !room_map.contains(id) && id < room_index.len() && room_index[id as int] != usize::MAX {
        let k = room_index[id as int] as int;
        assert(rooms[k].id == id);
        assert(room_map.contains(rooms[k].id));
    }
}

} // verus!
