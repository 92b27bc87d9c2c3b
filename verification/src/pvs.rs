//! Potentially visible sets: for each (room, angle bin) pair, the rooms that
//! can receive influence from it; and the choice of a representative node per
//! room.

use vstd::prelude::*;
use crate::graph::{AngleBin, Graph, GraphView, NodeId, RoomId, lemma_row_bounds};
use crate::rooms::{Room, RoomCollection};
use std::collections::HashMap;

verus! {

/// Errors of PVS operations.
#[derive(Debug)]
pub enum PVSError {
    /// A room id that cannot be used as an index.
    InvalidRoomId(RoomId),
    /// An angle bin that cannot be used as an index.
    InvalidAngleBin(AngleBin),
    /// A (room, angle bin) pair outside the table.
    OutOfBounds { room_id: RoomId, angle_bin: AngleBin, num_rooms: usize, num_angle_bins: usize },
    /// An index computation overflowed.
    IntegerOverflow,
    /// A room without nodes.
    EmptyRoom(RoomId),
}

/// A set of room ids, held in a `hashbrown::HashSet`.
#[verifier::external_body]
pub struct RoomSet {
    set: hashbrown::HashSet<RoomId>,
}

/// The room ids a `RoomSet` holds.
pub uninterp spec fn room_set_view(s: RoomSet) -> Set<RoomId>;

impl RoomSet {
    /// `hashbrown::HashSet::new`: an empty set.
    #[verifier::external_body]
    pub(crate) fn new() -> (r: RoomSet)
        ensures
            room_set_view(r) == Set::<RoomId>::empty(),
    {
        RoomSet { set: hashbrown::HashSet::new() }
    }

    /// `hashbrown::HashSet::insert`: adds `x`; returns whether it was absent.
    #[verifier::external_body]
    pub(crate) fn insert(&mut self, x: RoomId) -> (r: bool)
        ensures
            room_set_view(*final(self)) == room_set_view(*old(self)).insert(x),
            r == !room_set_view(*old(self)).contains(x),
    {
        self.set.insert(x)
    }

    /// `hashbrown::HashSet::contains`: whether `x` is in the set.
    #[verifier::external_body]
    pub(crate) fn contains(&self, x: RoomId) -> (r: bool)
        ensures
            r == room_set_view(*self).contains(x),
    {
        self.set.contains(&x)
    }

    /// `hashbrown::HashSet::iter`, collected: each element once, in the set's
    /// iteration order (which depends on the hasher's random seed, so no order
    /// is stated).
    #[verifier::external_body]
    pub(crate) fn to_vec(&self) -> (r: Vec<RoomId>)
        ensures
            r@.to_set() == room_set_view(*self),
            r@.no_duplicates(),
    {
        self.set.iter().copied().collect()
    }
}

/// Potentially visible set: for each (room, angle bin) pair, the set of rooms
/// that could receive influence when starting from that room with that bin.
pub struct PVS {
    visibility: Vec<RoomSet>,
    num_rooms: usize,
    num_angle_bins: usize,
}

impl PVS {
    /// The visible sets, indexed by `room * num_angle_bins + bin`.
    pub closed spec fn sets(self) -> Seq<Set<RoomId>> {
        self.visibility@.map_values(|s: RoomSet| room_set_view(s))
    }

    /// Number of rooms.
    pub closed spec fn rooms_spec(self) -> nat {
        self.num_rooms as nat
    }

    /// Number of angle bins.
    pub closed spec fn bins_spec(self) -> nat {
        self.num_angle_bins as nat
    }

    /// The error for a (room, bin) pair outside the table.
    pub open spec fn out_of_bounds(self, room_id: RoomId, angle_bin: AngleBin) -> PVSError {
        PVSError::OutOfBounds {
            room_id,
            angle_bin,
            num_rooms: self.rooms_spec() as usize,
            num_angle_bins: self.bins_spec() as usize,
        }
    }

    /// The table position of a (room, bin) pair, when the pair is in range and
    /// the position fits a `usize`.
    pub open spec fn index_spec(self, room_id: RoomId, angle_bin: AngleBin) -> Option<int> {
        if room_id < self.rooms_spec() && angle_bin < self.bins_spec() && room_id * self.bins_spec()
            + angle_bin <= usize::MAX {
            Some(room_id * self.bins_spec() + angle_bin)
        } else {
            None
        }
    }

    /// An empty PVS for `num_rooms` rooms and `num_angle_bins` bins.
    pub fn new(num_rooms: usize, num_angle_bins: usize) -> (r: Self)
        requires
            num_rooms * num_angle_bins <= usize::MAX,
        ensures
            r.rooms_spec() == num_rooms,
            r.bins_spec() == num_angle_bins,
            r.sets().len() == num_rooms * num_angle_bins,
            forall|i: int| 0 <= i < r.sets().len() ==> #[trigger] r.sets()[i] == Set::<RoomId>::empty(),
    {
        let size = num_rooms * num_angle_bins;
        let mut visibility: Vec<RoomSet> = Vec::new();
        let mut i: usize = 0;
        while i < size
            invariant
                i <= size,
                visibility@.len() == i,
                forall|j: int| 0 <= j < i ==> room_set_view(#[trigger] visibility@[j]) == Set::<
                    RoomId,
                >::empty(),
            decreases size - i,
        {
            visibility.push(RoomSet::new());
            i = i + 1;
        }
        PVS { visibility, num_rooms, num_angle_bins }
    }

    /// The table position of a (room, bin) pair.
    fn index(&self, room_id: RoomId, angle_bin: AngleBin) -> (r: Result<usize, PVSError>)
        ensures
            r matches Ok(i) ==> self.index_spec(room_id, angle_bin) == Some(i as int),
            r is Err ==> self.index_spec(room_id, angle_bin) is None,
            (room_id >= self.rooms_spec() || angle_bin >= self.bins_spec()) ==> r == Err::<usize, PVSError>(
                self.out_of_bounds(room_id, angle_bin),
            ),
    {
        let room_idx = room_id as usize;
        let bin_idx = angle_bin as usize;
        if room_idx >= self.num_rooms || bin_idx >= self.num_angle_bins {
            return Err(
                PVSError::OutOfBounds {
                    room_id,
                    angle_bin,
                    num_rooms: self.num_rooms,
                    num_angle_bins: self.num_angle_bins,
                },
            );
        }
        match room_idx.checked_mul(self.num_angle_bins) {
            Some(x) => match x.checked_add(bin_idx) {
                Some(idx) => Ok(idx),
                None => Err(PVSError::IntegerOverflow),
            },
            None => {
                proof {
                    assert(room_idx * self.num_angle_bins + bin_idx > usize::MAX) by (nonlinear_arith)
                        requires
                            room_idx * self.num_angle_bins > usize::MAX,
                            bin_idx >= 0,
                    ;
                }
                Err(PVSError::IntegerOverflow)
            },
        }
    }

    /// Marks room `to_room` visible from `from_room` with `angle_bin`. Fails
    /// with `OutOfBounds` when the pair is outside the table.
    pub fn mark_visible(&mut self, from_room: RoomId, angle_bin: AngleBin, to_room: RoomId) -> (r: Result<(), PVSError>)
        ensures
            final(self).rooms_spec() == old(self).rooms_spec(),
            final(self).bins_spec() == old(self).bins_spec(),
            (from_room >= old(self).rooms_spec() || angle_bin >= old(self).bins_spec()) ==> r == Err::<
                (),
                PVSError,
            >(old(self).out_of_bounds(from_room, angle_bin)),
            r is Ok <==> (old(self).index_spec(from_room, angle_bin) matches Some(i) && i < old(
                self,
            ).sets().len()),
            r is Ok ==> final(self).sets() == old(self).sets().update(
                old(self).index_spec(from_room, angle_bin)->0,
                old(self).sets()[old(self).index_spec(from_room, angle_bin)->0].insert(to_room),
            ),
            r is Err ==> final(self).sets() == old(self).sets(),
    {
        let idx = match self.index(from_room, angle_bin) {
            Ok(i) => i,
            Err(e) => return Err(e),
        };
        if idx >= self.visibility.len() {
            return Err(
                PVSError::OutOfBounds {
                    room_id: from_room,
                    angle_bin,
                    num_rooms: self.num_rooms,
                    num_angle_bins: self.num_angle_bins,
                },
            );
        }
        let ghost before = self.visibility@;
        self.visibility[idx].insert(to_room);
        proof {
            assert(self.sets() =~= before.map_values(|s: RoomSet| room_set_view(s)).update(
                idx as int,
                room_set_view(before[idx as int]).insert(to_room),
            ));
        }
        Ok(())
    }

    /// Whether `to_room` is visible from `from_room` with `angle_bin`. Fails with
    /// `OutOfBounds` when the pair is outside the table.
    pub fn is_visible(&self, from_room: RoomId, angle_bin: AngleBin, to_room: RoomId) -> (r: Result<bool, PVSError>)
        ensures
            (from_room >= self.rooms_spec() || angle_bin >= self.bins_spec()) ==> (r matches Err(
                PVSError::OutOfBounds { .. },
            )),
            r is Ok <==> (self.index_spec(from_room, angle_bin) matches Some(i) && i < self.sets().len()),
            r matches Ok(b) ==> b == self.sets()[self.index_spec(from_room, angle_bin)->0].contains(
                to_room,
            ),
    {
        let idx = match self.index(from_room, angle_bin) {
            Ok(i) => i,
            Err(e) => return Err(e),
        };
        if idx >= self.visibility.len() {
            return Err(
                PVSError::OutOfBounds {
                    room_id: from_room,
                    angle_bin,
                    num_rooms: self.num_rooms,
                    num_angle_bins: self.num_angle_bins,
                },
            );
        }
        Ok(self.visibility[idx].contains(to_room))
    }

    /// All rooms visible from `from_room` with `angle_bin`, each once. Fails with
    /// `OutOfBounds` when the pair is outside the table.
    pub fn get_visible_rooms(&self, from_room: RoomId, angle_bin: AngleBin) -> (r: Result<Vec<RoomId>, PVSError>)
        ensures
            (from_room >= self.rooms_spec() || angle_bin >= self.bins_spec()) ==> (r matches Err(
                PVSError::OutOfBounds { .. },
            )),
            r is Ok <==> (self.index_spec(from_room, angle_bin) matches Some(i) && i < self.sets().len()),
            r matches Ok(v) ==> v@.to_set() == self.sets()[self.index_spec(from_room, angle_bin)->0]
                && v@.no_duplicates(),
    {
        let idx = match self.index(from_room, angle_bin) {
            Ok(i) => i,
            Err(e) => return Err(e),
        };
        if idx >= self.visibility.len() {
            return Err(
                PVSError::OutOfBounds {
                    room_id: from_room,
                    angle_bin,
                    num_rooms: self.num_rooms,
                    num_angle_bins: self.num_angle_bins,
                },
            );
        }
        Ok(self.visibility[idx].to_vec())
    }
}

/// Node `u` has at least one out-edge.
pub open spec fn has_out_edges(g: GraphView, u: int) -> bool {
    g.row_ptr[u] < g.row_ptr[u + 1]
}

/// Some node of room `r` has an out-edge.
pub open spec fn room_has_edged_node(g: GraphView, r: RoomId) -> bool {
    exists|u: int| 0 <= u < g.num_nodes && g.room_map[u] == r && #[trigger] has_out_edges(g, u)
}

/// Some node is in room `r`.
pub open spec fn room_has_node(g: GraphView, r: RoomId) -> bool {
    exists|u: int| 0 <= u < g.num_nodes && #[trigger] g.room_map[u] == r
}

/// `u` is the representative of room `r`: the first node of the room with an
/// out-edge, or the first node of the room when none has one.
pub open spec fn is_representative(g: GraphView, r: RoomId, u: int) -> bool {
    &&& 0 <= u < g.num_nodes
    &&& g.room_map[u] == r
    &&& room_has_edged_node(g, r) ==> has_out_edges(g, u) && forall|v: int|
        0 <= v < u && g.room_map[v] == r ==> !#[trigger] has_out_edges(g, v)
    &&& !room_has_edged_node(g, r) ==> forall|v: int| 0 <= v < u ==> #[trigger] g.room_map[v] != r
}

/// The representative node of a room: the first node of the room with an
/// out-edge, else the first node of the room; `EmptyRoom` when the room has
/// no node.
pub fn find_representative_node(graph: &Graph, room: &Room) -> (r: Result<NodeId, PVSError>)
    requires
        graph@.valid(),
    ensures
        r is Err <==> !room_has_node(graph@, room.id),
        r matches Err(e) ==> e == PVSError::EmptyRoom(room.id),
        r matches Ok(u) ==> is_representative(graph@, room.id, u as int),
{
    let ghost g = graph@;
    let n = graph.num_nodes();
    let room_map = graph.room_map();
    let row_ptr = graph.row_ptr();
    let mut u: usize = 0;
    while u < n
        invariant
            g == graph@,
            g.valid(),
            n == g.num_nodes,
            room_map@ == g.room_map,
            row_ptr@ == g.row_ptr,
            u <= n,
            forall|v: int| 0 <= v < u && g.room_map[v] == room.id ==> !#[trigger] has_out_edges(g, v),
        decreases n - u,
    {
        if room_map[u] == room.id && row_ptr[u] < row_ptr[u + 1] {
            proof {
                assert(has_out_edges(g, u as int));
            }
            return Ok(u as NodeId);
        }
        u = u + 1;
    }
    proof {
        assert(!room_has_edged_node(g, room.id));
    }
    let mut u: usize = 0;
    while u < n
        invariant
            g == graph@,
            g.valid(),
            n == g.num_nodes,
            room_map@ == g.room_map,
            u <= n,
            !room_has_edged_node(g, room.id),
            forall|v: int| 0 <= v < u ==> #[trigger] g.room_map[v] != room.id,
        decreases n - u,
    {
        if room_map[u] == room.id {
            return Ok(u as NodeId);
        }
        u = u + 1;
    }
    Err(PVSError::EmptyRoom(room.id))
}

/// Room `r` is one of the rooms of the collection and has a node.
pub open spec fn listed_nonempty(g: GraphView, rooms: Seq<Room>, r: RoomId) -> bool {
    room_has_node(g, r) && exists|k: int| 0 <= k < rooms.len() && #[trigger] rooms[k].id == r
}

/// The representative node of every room that has a node with an out-edge or
/// is listed in `rooms` and has a node: the first node of the room with an
/// out-edge, else its first node.
pub fn precompute_representative_nodes(graph: &Graph, rooms: &RoomCollection) -> (r: Result<
    HashMap<RoomId, NodeId>,
    PVSError,
>)
    requires
        graph@.valid(),
    ensures
        r matches Ok(m) ==> {
            &&& forall|x: RoomId| #[trigger] m@.contains_key(x) <==> (room_has_edged_node(graph@, x)
                || listed_nonempty(graph@, rooms.rooms@, x))
            &&& forall|x: RoomId| #[trigger] m@.contains_key(x) ==> is_representative(
                graph@,
                x,
                m@[x] as int,
            )
        },
        r is Ok,
{
    broadcast use vstd::std_specs::hash::group_hash_axioms;
    let ghost g = graph@;
    let n = graph.num_nodes();
    let room_map = graph.room_map();
    let row_ptr = graph.row_ptr();
    let mut reps: HashMap<RoomId, NodeId> = HashMap::new();
    let mut u: usize = 0;
    while u < n
        invariant
            g == graph@,
            g.valid(),
            n == g.num_nodes,
            room_map@ == g.room_map,
            row_ptr@ == g.row_ptr,
            u <= n,
            forall|x: RoomId| #[trigger] reps@.contains_key(x) ==> {
                &&& reps@[x] < u
                &&& g.room_map[reps@[x] as int] == x
                &&& has_out_edges(g, reps@[x] as int)
                &&& forall|v: int| 0 <= v < reps@[x] && g.room_map[v] == x ==> !#[trigger] has_out_edges(g, v)
            },
            forall|v: int| 0 <= v < u && #[trigger] has_out_edges(g, v) ==> reps@.contains_key(
                g.room_map[v],
            ),
        decreases n - u,
    {
        let room_id = room_map[u];
        if !reps.contains_key(&room_id) {
            if row_ptr[u] < row_ptr[u + 1] {
                proof {
                    assert(has_out_edges(g, u as int));
                }
                reps.insert(room_id, u as NodeId);
            }
        }
        u = u + 1;
    }
    proof {
        assert forall|x: RoomId| #[trigger] reps@.contains_key(x) <==> room_has_edged_node(g, x) by {
            if reps@.contains_key(x) {
                assert(has_out_edges(g, reps@[x] as int));
            }
            if room_has_edged_node(g, x) {
                let v = choose|v: int| 0 <= v < g.num_nodes && g.room_map[v] == x && #[trigger] has_out_edges(g, v);
                assert(has_out_edges(g, v));
            }
        }
    }
    let ghost first = reps@;
    let mut k: usize = 0;
    while k < rooms.rooms.len()
        invariant
            g == graph@,
            g.valid(),
            n == g.num_nodes,
            room_map@ == g.room_map,
            k <= rooms.rooms@.len(),
            forall|x: RoomId| #[trigger] first.contains_key(x) <==> room_has_edged_node(g, x),
            forall|x: RoomId| #[trigger] first.contains_key(x) ==> reps@.contains_key(x) && reps@[x] == first[x],
            forall|x: RoomId| #[trigger] reps@.contains_key(x) ==> (first.contains_key(x) || listed_nonempty(
                g,
                rooms.rooms@,
                x,
            )),
            forall|j: int| 0 <= j < k && room_has_node(g, (#[trigger] rooms.rooms@[j]).id) ==> reps@.contains_key(
                rooms.rooms@[j].id,
            ),
            forall|x: RoomId| #[trigger] reps@.contains_key(x) ==> is_representative(g, x, reps@[x] as int),
        decreases rooms.rooms@.len() - k,
    {
        let id = rooms.rooms[k].id;
        if !reps.contains_key(&id) {
            let mut v: usize = 0;
            while v < n
                invariant
                    g == graph@,
                    g.valid(),
                    n == g.num_nodes,
                    room_map@ == g.room_map,
                    v <= n,
                    forall|w: int| 0 <= w < v ==> #[trigger] g.room_map[w] != id,
                ensures
                    v <= n,
                    forall|w: int| 0 <= w < v ==> #[trigger] g.room_map[w] != id,
                    v < n ==> g.room_map[v as int] == id,
                decreases n - v,
            {
                if room_map[v] == id {
                    break;
                }
                v = v + 1;
            }
            if v < n {
                proof {
                    assert(!first.contains_key(id));
                    assert(!room_has_edged_node(g, id));
                    assert(room_has_node(g, id)) by {
                        assert(g.room_map[v as int] == id);
                    }
                    assert(is_representative(g, id, v as int));
                    assert(listed_nonempty(g, rooms.rooms@, id)) by {
                        assert(rooms.rooms@[k as int].id == id);
                    }
                }
                reps.insert(id, v as NodeId);
            } else {
                proof {
                    assert(!room_has_node(g, id));
                }
            }
        }
        k = k + 1;
    }
    proof {
        assert forall|x: RoomId| #[trigger] reps@.contains_key(x) <==> (room_has_edged_node(g, x)
            || listed_nonempty(g, rooms.rooms@, x)) by {
            if listed_nonempty(g, rooms.rooms@, x) {
                let j = choose|j: int| 0 <= j < rooms.rooms@.len() && #[trigger] rooms.rooms@[j].id == x;
                assert(room_has_node(g, rooms.rooms@[j].id));
            }
        }
    }
    Ok(reps)
}

/// Position of the pair (`i`, `b`) in a table with `bins` bins per row.
pub open spec fn flat(bins: nat, i: int, b: int) -> int {
    i * bins + b
}

/// Distinct (row, bin) pairs have distinct positions.
pub proof fn lemma_flat_injective(bins: nat, i1: int, b1: int, i2: int, b2: int)
    requires
        0 <= i1,
        0 <= i2,
        0 <= b1 < bins,
        0 <= b2 < bins,
        flat(bins, i1, b1) == flat(bins, i2, b2),
    ensures
        i1 == i2,
        b1 == b2,
{
    assert(i1 == i2 && b1 == b2) by (nonlinear_arith)
        requires
            0 <= i1,
            0 <= i2,
            0 <= b1 < bins,
            0 <= b2 < bins,
            i1 * bins + b1 == i2 * bins + b2,
    {
        if i1 < i2 {
            assert(i1 * bins + bins <= i2 * bins);
        } else if i2 < i1 {
            assert(i2 * bins + bins <= i1 * bins);
        }
    }
}

/// A position of a row below `rows` in a table of `rows` rows of `bins` bins
/// lies inside the table.
pub proof fn lemma_flat_in_table(bins: nat, rows: nat, i: int, b: int)
    requires
        0 <= i < rows,
        0 <= b < bins,
    ensures
        0 <= flat(bins, i, b) < rows * bins,
{
    assert(0 <= i * bins + b < rows * bins) by (nonlinear_arith)
        requires
            0 <= i < rows,
            0 <= b < bins,
    {
        assert(i * bins + bins <= rows * bins);
    }
}

/// The list of room `i` of `rooms` at bin `b` reaches some room.
pub open spec fn bin_reaches(reachable: Seq<Vec<RoomId>>, bins: nat, i: int, b: int) -> bool {
    reachable[flat(bins, i, b)]@.len() > 0
}

/// `build_pvs` fails at room `i` of the list: the room has no node, or its id
/// is outside the table while one of its bins reaches a room.
pub open spec fn build_fails_at(
    g: GraphView,
    rooms: Seq<Room>,
    bins: nat,
    reachable: Seq<Vec<RoomId>>,
    i: int,
) -> bool {
    &&& bins > 0
    &&& !room_has_node(g, rooms[i].id) || (rooms[i].id >= rooms.len() && exists|b: int|
        0 <= b < bins && #[trigger] bin_reaches(reachable, bins, i, b))
}

/// `b` is the first bin of room `i` whose list reaches a room.
pub open spec fn first_reaching_bin(reachable: Seq<Vec<RoomId>>, bins: nat, i: int, b: int) -> bool {
    &&& 0 <= b < bins
    &&& bin_reaches(reachable, bins, i, b)
    &&& forall|c: int| 0 <= c < b ==> !#[trigger] bin_reaches(reachable, bins, i, c)
}

/// The error `build_pvs` reports for a failing room `i`.
pub open spec fn build_error(
    g: GraphView,
    rooms: Seq<Room>,
    bins: nat,
    reachable: Seq<Vec<RoomId>>,
    i: int,
) -> PVSError {
    if !room_has_node(g, rooms[i].id) {
        PVSError::EmptyRoom(rooms[i].id)
    } else {
        PVSError::OutOfBounds {
            room_id: rooms[i].id,
            angle_bin: (choose|b: int| first_reaching_bin(reachable, bins, i, b)) as AngleBin,
            num_rooms: rooms.len() as usize,
            num_angle_bins: bins as usize,
        }
    }
}

/// Room `x` is in the list of some room of `rooms` with id `id` at bin `b`,
/// among the pairs before (`i_end`, `b_end`) in row order.
pub open spec fn listed_visible(
    rooms: Seq<Room>,
    bins: nat,
    reachable: Seq<Vec<RoomId>>,
    id: RoomId,
    b: int,
    x: RoomId,
    i_end: int,
    b_end: int,
) -> bool {
    exists|i: int|
        0 <= i < rooms.len() && (i < i_end || (i == i_end && b < b_end)) && #[trigger] rooms[i].id == id
            && reachable[flat(bins, i, b)]@.contains(x)
}

/// Builds the PVS of `rooms` from the rooms each (room, bin) pair reaches:
/// `reachable[i * num_angle_bins + b]` lists the rooms reached from room
/// `rooms.rooms[i]` with angle bin `b`. Every room of the list must have a
/// node (`EmptyRoom`), and a room that reaches anything must have an id below
/// the number of rooms (`OutOfBounds`, as `mark_visible` reports it); the
/// first room of the list that breaks either rule gives the error. Every bin
/// is an `AngleBin`, so there are at most 256 of them.
pub fn build_pvs(
    graph: &Graph,
    rooms: &RoomCollection,
    num_angle_bins: usize,
    reachable: &Vec<Vec<RoomId>>,
) -> (r: Result<PVS, PVSError>)
    requires
        graph@.valid(),
        num_angle_bins <= 256,
        rooms.rooms@.len() * num_angle_bins <= usize::MAX,
        reachable@.len() == rooms.rooms@.len() * num_angle_bins,
    ensures
        r is Err <==> exists|i: int|
            0 <= i < rooms.rooms@.len() && #[trigger] build_fails_at(
                graph@,
                rooms.rooms@,
                num_angle_bins as nat,
                reachable@,
                i,
            ),
        r matches Err(e) ==> exists|i: int|
            #![trigger rooms.rooms@[i]]
            0 <= i < rooms.rooms@.len() && build_fails_at(graph@, rooms.rooms@, num_angle_bins as nat, reachable@, i)
                && (forall|j: int|
                0 <= j < i ==> !#[trigger] build_fails_at(
                    graph@,
                    rooms.rooms@,
                    num_angle_bins as nat,
                    reachable@,
                    j,
                )) && e == build_error(graph@, rooms.rooms@, num_angle_bins as nat, reachable@, i),
        r matches Ok(p) ==> {
            &&& p.rooms_spec() == rooms.rooms@.len()
            &&& p.bins_spec() == num_angle_bins
            &&& p.sets().len() == rooms.rooms@.len() * num_angle_bins
            &&& forall|i: int, b: int|
                0 <= i < rooms.rooms@.len() && 0 <= b < num_angle_bins ==> #[trigger] reachable@[flat(
                    num_angle_bins as nat,
                    i,
                    b,
                )]@.to_set().subset_of(
                    p.sets()[flat(num_angle_bins as nat, rooms.rooms@[i].id as int, b)],
                )
            &&& forall|id: RoomId, b: int, x: RoomId|
                id < rooms.rooms@.len() && 0 <= b < num_angle_bins ==> (#[trigger] p.sets()[flat(
                    num_angle_bins as nat,
                    id as int,
                    b,
                )].contains(x) <==> listed_visible(
                    rooms.rooms@,
                    num_angle_bins as nat,
                    reachable@,
                    id,
                    b,
                    x,
                    rooms.rooms@.len() as int,
                    0,
                ))
        },
{
    let ghost g = graph@;
    let ghost bins = num_angle_bins as nat;
    let ghost rs = rooms.rooms@;
    let num_rooms = rooms.num_rooms();
    let mut pvs = PVS::new(num_rooms, num_angle_bins);
    let reps = match precompute_representative_nodes(graph, rooms) {
        Ok(m) => m,
        Err(e) => return Err(e),
    };
    proof {
        assert forall|id: RoomId, b: int, x: RoomId|
            id < rs.len() && 0 <= b < bins implies (#[trigger] pvs.sets()[flat(bins, id as int, b)].contains(x)
                <==> listed_visible(rs, bins, reachable@, id, b, x, 0, 0)) by {
            assert(id * bins + b < rs.len() * bins) by (nonlinear_arith)
                requires
                    id < rs.len(),
                    b < bins,
            ;
            assert(pvs.sets()[flat(bins, id as int, b)] == Set::<RoomId>::empty());
        }
    }
    let mut i: usize = 0;
    while i < rooms.rooms.len()
        invariant
            g == graph@,
            g.valid(),
            rs == rooms.rooms@,
            bins == num_angle_bins,
            num_angle_bins <= 256,
            num_rooms == rs.len(),
            rs.len() * bins <= usize::MAX,
            reachable@.len() == rs.len() * bins,
            i <= rs.len(),
            forall|x: RoomId| #[trigger] reps@.contains_key(x) <==> (room_has_edged_node(g, x) || listed_nonempty(g, rs, x)),
            pvs.rooms_spec() == num_rooms,
            pvs.bins_spec() == bins,
            pvs.sets().len() == rs.len() * bins,
            forall|j: int| 0 <= j < i ==> !#[trigger] build_fails_at(g, rs, bins, reachable@, j),
            forall|j: int, b: int|
                0 <= j < i && 0 <= b < bins ==> #[trigger] reachable@[flat(bins, j, b)]@.to_set().subset_of(
                    pvs.sets()[flat(bins, rs[j].id as int, b)],
                ),
            forall|id: RoomId, b: int, x: RoomId|
                id < rs.len() && 0 <= b < bins ==> (#[trigger] pvs.sets()[flat(bins, id as int, b)].contains(x)
                    <==> listed_visible(rs, bins, reachable@, id, b, x, i as int, 0)),
        decreases rs.len() - i,
    {
        let id = rooms.rooms[i].id;
        let mut b: usize = 0;
        while b < num_angle_bins
            invariant
                g == graph@,
                g.valid(),
                rs == rooms.rooms@,
                bins == num_angle_bins,
                num_angle_bins <= 256,
                num_rooms == rs.len(),
                rs.len() * bins <= usize::MAX,
                reachable@.len() == rs.len() * bins,
                i < rs.len(),
                id == rs[i as int].id,
                b <= bins,
                b > 0 ==> room_has_node(g, id),
                id >= rs.len() ==> forall|c: int| 0 <= c < b ==> !#[trigger] bin_reaches(reachable@, bins, i as int, c),
                forall|x: RoomId| #[trigger] reps@.contains_key(x) <==> (room_has_edged_node(g, x) || listed_nonempty(g, rs, x)),
                pvs.rooms_spec() == num_rooms,
                pvs.bins_spec() == bins,
                pvs.sets().len() == rs.len() * bins,
                forall|j: int| 0 <= j < i ==> !#[trigger] build_fails_at(g, rs, bins, reachable@, j),
                forall|j: int, c: int|
                    0 <= c < bins && (0 <= j < i || (j == i && c < b)) ==> #[trigger] reachable@[flat(
                        bins,
                        j,
                        c,
                    )]@.to_set().subset_of(pvs.sets()[flat(bins, rs[j].id as int, c)]),
                forall|id2: RoomId, c: int, x: RoomId|
                    id2 < rs.len() && 0 <= c < bins ==> (#[trigger] pvs.sets()[flat(bins, id2 as int, c)].contains(x)
                        <==> listed_visible(rs, bins, reachable@, id2, c, x, i as int, b as int)),
            decreases bins - b,
        {
            if !reps.contains_key(&id) {
                proof {
                    assert(!room_has_node(g, id)) by {
                        if room_has_node(g, id) {
                            assert(listed_nonempty(g, rs, id)) by {
                                assert(rs[i as int].id == id);
                            }
                        }
                    }
                    assert(build_fails_at(g, rs, bins, reachable@, i as int));
                }
                return Err(PVSError::EmptyRoom(id));
            }
            proof {
                if !room_has_node(g, id) {
                    assert(!room_has_edged_node(g, id)) by {
                        if room_has_edged_node(g, id) {
                            let u = choose|u: int| 0 <= u < g.num_nodes && g.room_map[u] == id && #[trigger] has_out_edges(g, u);
                            assert(g.room_map[u] == id);
                        }
                    }
                }
                assert(i * bins + b < rs.len() * bins) by (nonlinear_arith)
                    requires
                        i < rs.len(),
                        b < bins,
                ;
            }
            let list = &reachable[i * num_angle_bins + b];
            let mut k: usize = 0;
            while k < list.len()
                invariant
                    list@ == reachable@[flat(bins, i as int, b as int)]@,
                    g == graph@,
                    room_has_node(g, id),
                    forall|j: int| 0 <= j < i ==> !#[trigger] build_fails_at(g, rs, bins, reachable@, j),
                    id >= rs.len() ==> forall|c: int| 0 <= c < b ==> !#[trigger] bin_reaches(reachable@, bins, i as int, c),
                    rs == rooms.rooms@,
                    bins == num_angle_bins,
                    num_rooms == rs.len(),
                    rs.len() * bins <= usize::MAX,
                    i < rs.len(),
                    id == rs[i as int].id,
                    b < bins,
                    b <= 255,
                    k <= list@.len(),
                    id >= rs.len() ==> k == 0,
                    pvs.rooms_spec() == num_rooms,
                    pvs.bins_spec() == bins,
                    pvs.sets().len() == rs.len() * bins,
                    forall|j: int, c: int|
                        0 <= c < bins && (0 <= j < i || (j == i && c < b)) ==> #[trigger] reachable@[flat(
                            bins,
                            j,
                            c,
                        )]@.to_set().subset_of(pvs.sets()[flat(bins, rs[j].id as int, c)]),
                    forall|m: int| 0 <= m < k ==> pvs.sets()[flat(bins, id as int, b as int)].contains(#[trigger] list@[m]),
                    forall|id2: RoomId, c: int, x: RoomId|
                        id2 < rs.len() && 0 <= c < bins ==> (#[trigger] pvs.sets()[flat(bins, id2 as int, c)].contains(x)
                            <==> (listed_visible(rs, bins, reachable@, id2, c, x, i as int, b as int) || (id2 == id
                            && c == b && list@.subrange(0, k as int).contains(x)))),
                decreases list@.len() - k,
            {
                let ghost before = pvs.sets();
                match pvs.mark_visible(id, b as AngleBin, list[k]) {
                    Ok(()) => {},
                    Err(e) => {
                        proof {
                            assert(id >= rs.len()) by {
                                if id < rs.len() {
                                    assert(id * bins + b < rs.len() * bins) by (nonlinear_arith)
                                        requires
                                            id < rs.len(),
                                            b < bins,
                                    ;
                                }
                            }
                            assert(bin_reaches(reachable@, bins, i as int, b as int));
                            assert(build_fails_at(g, rs, bins, reachable@, i as int));
                            assert(first_reaching_bin(reachable@, bins, i as int, b as int));
                            let c = choose|c: int| first_reaching_bin(reachable@, bins, i as int, c);
                            if c < b {
                                assert(!bin_reaches(reachable@, bins, i as int, c));
                            }
                            if c > b {
                                assert(!bin_reaches(reachable@, bins, i as int, b as int));
                            }
                            assert(e == build_error(g, rs, bins, reachable@, i as int));
                        }
                        return Err(e);
                    },
                }
                proof {
                    assert(id < rs.len());
                    assert(id * bins + b < rs.len() * bins) by (nonlinear_arith)
                        requires
                            id < rs.len(),
                            b < bins,
                    ;
                    let idx = flat(bins, id as int, b as int);
                    assert(pvs.index_spec(id, b as AngleBin) == Some(idx));
                    assert(list@.subrange(0, k + 1) =~= list@.subrange(0, k as int).push(list@[k as int]));
                    assert forall|j: int, c: int|
                        0 <= c < bins && (0 <= j < i || (j == i && c < b)) implies #[trigger] reachable@[flat(
                            bins,
                            j,
                            c,
                        )]@.to_set().subset_of(pvs.sets()[flat(bins, rs[j].id as int, c)]) by {
                        let jdx = flat(bins, rs[j].id as int, c);
                        if rs[j].id >= rs.len() {
                            if j < i {
                                assert(!build_fails_at(g, rs, bins, reachable@, j));
                            }
                            assert(!bin_reaches(reachable@, bins, j, c));
                            assert(reachable@[flat(bins, j, c)]@.to_set() =~= Set::<RoomId>::empty());
                        } else {
                            lemma_flat_in_table(bins, rs.len(), rs[j].id as int, c);
                            assert(reachable@[flat(bins, j, c)]@.to_set().subset_of(before[jdx]));
                            assert(before[jdx].subset_of(pvs.sets()[jdx]));
                        }
                    }
                    assert forall|id2: RoomId, c: int, x: RoomId|
                        id2 < rs.len() && 0 <= c < bins implies (#[trigger] pvs.sets()[flat(bins, id2 as int, c)].contains(x)
                            <==> (listed_visible(rs, bins, reachable@, id2, c, x, i as int, b as int) || (id2 == id
                            && c == b && list@.subrange(0, k + 1).contains(x)))) by {
                        lemma_flat_in_table(bins, rs.len(), id2 as int, c);
                        if flat(bins, id2 as int, c) == idx {
                            lemma_flat_injective(bins, id2 as int, c, id as int, b as int);
                            if x == list@[k as int] {
                                assert(list@.subrange(0, k + 1)[k as int] == x);
                            }
                            if list@.subrange(0, k + 1).contains(x) && x != list@[k as int] {
                                let m = choose|m: int| 0 <= m < k + 1 && #[trigger] list@.subrange(0, k + 1)[m] == x;
                                assert(list@.subrange(0, k as int)[m] == x);
                            }
                        } else {
                            if id2 == id && c == b {
                                assert(flat(bins, id2 as int, c) == idx);
                            }
                        }
                    }
                }
                k = k + 1;
            }
            proof {
                assert(list@.subrange(0, list@.len() as int) =~= list@);
                assert forall|id2: RoomId, c: int, x: RoomId|
                    id2 < rs.len() && 0 <= c < bins implies (#[trigger] pvs.sets()[flat(bins, id2 as int, c)].contains(x)
                        <==> listed_visible(rs, bins, reachable@, id2, c, x, i as int, b + 1)) by {
                    if id2 == id && c == b && list@.contains(x) {
                        assert(rs[i as int].id == id2);
                    }
                    if listed_visible(rs, bins, reachable@, id2, c, x, i as int, b + 1) {
                        let j = choose|j: int|
                            0 <= j < rs.len() && (j < i || (j == i && c < b + 1)) && #[trigger] rs[j].id == id2
                                && reachable@[flat(bins, j, c)]@.contains(x);
                        if !(j < i || (j == i && c < b)) {
                            assert(list@.contains(x));
                        }
                    }
                }
                assert(reachable@[flat(bins, i as int, b as int)]@.to_set().subset_of(pvs.sets()[flat(bins, id as int, b as int)])) by {
                    assert forall|x: RoomId| reachable@[flat(bins, i as int, b as int)]@.to_set().contains(x) implies pvs.sets()[flat(bins, id as int, b as int)].contains(x) by {
                        let m = choose|m: int| 0 <= m < list@.len() && #[trigger] list@[m] == x;
                        assert(list@[m] == x);
                    }
                }
            }
            b = b + 1;
        }
        proof {
            assert(!build_fails_at(g, rs, bins, reachable@, i as int));
            assert forall|id2: RoomId, c: int, x: RoomId|
                id2 < rs.len() && 0 <= c < bins implies (#[trigger] pvs.sets()[flat(bins, id2 as int, c)].contains(x)
                    <==> listed_visible(rs, bins, reachable@, id2, c, x, i + 1, 0)) by {
                if listed_visible(rs, bins, reachable@, id2, c, x, i + 1, 0) {
                    let j = choose|j: int|
                        0 <= j < rs.len() && (j < i + 1 || (j == i + 1 && c < 0)) && #[trigger] rs[j].id == id2
                            && reachable@[flat(bins, j, c)]@.contains(x);
                    assert(listed_visible(rs, bins, reachable@, id2, c, x, i as int, b as int));
                }
            }
        }
        i = i + 1;
    }
    Ok(pvs)
}

/// Reading back a mark: once `from` with `bin` sees `to`, `is_visible` says
/// so; every other (room, bin) pair, and every other room seen from the same
/// pair, is as visible as before.
pub proof fn lemma_visible_after_mark(
    before: PVS,
    after: PVS,
    from: RoomId,
    bin: AngleBin,
    to: RoomId,
    other_from: RoomId,
    other_bin: AngleBin,
    x: RoomId,
)
    requires
        before.index_spec(from, bin) matches Some(i) && i < before.sets().len(),
        after.rooms_spec() == before.rooms_spec(),
        after.bins_spec() == before.bins_spec(),
        after.sets() == before.sets().update(
            before.index_spec(from, bin)->0,
            before.sets()[before.index_spec(from, bin)->0].insert(to),
        ),
    ensures
        after.index_spec(from, bin) == before.index_spec(from, bin),
        after.sets()[after.index_spec(from, bin)->0].contains(to),
        after.index_spec(other_from, other_bin) == before.index_spec(other_from, other_bin),
        after.index_spec(other_from, other_bin) matches Some(j) ==> (j < after.sets().len() ==> (
        after.sets()[j].contains(x) <==> (before.sets()[j].contains(x) || (j == before.index_spec(
            from,
            bin,
        )->0 && x == to)))),
{
}

} // verus!
