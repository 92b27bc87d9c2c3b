//! User context for personalized retrieval: interaction history, the recent
//! session, access control and activity-feed seeds.
//!
//! Topic affinities and the recency decay are `f32` values held as bits.

use vstd::prelude::*;
use vstd::std_specs::hash::spec_hash_map_iter;
use vstd::std_specs::iter::IteratorSpec;
use crate::graph::{NodeId, RoomId, N_ANGLE_BINS, ONE_BITS};
use std::collections::{HashMap, HashSet};

verus! {

broadcast use vstd::std_specs::hash::group_hash_axioms;

/// Longest session history kept.
pub const MAX_SESSION_NODES: usize = 100;

/// Bit pattern of the `f32` value 0.9 (default recency decay).
pub const DEFAULT_RECENCY_DECAY_BITS: u32 = 0x3f66_6666;

/// User context for personalized retrieval.
pub struct UserContext {
    /// User identifier.
    pub user_id: String,
    /// Topic affinity per angle bin (`f32` bits in `[0, 1]`).
    pub topic_affinity_bits: Vec<u32>,
    /// Interaction count per node.
    pub interaction_history: HashMap<NodeId, u32>,
    /// Recent session nodes, most recent first.
    pub session_nodes: Vec<NodeId>,
    /// Accessible rooms (empty: all rooms are accessible).
    pub accessible_rooms: HashSet<RoomId>,
    /// Recency decay factor (`f32` bits).
    pub recency_decay_bits: u32,
}

/// `s` with every occurrence of `x` removed.
pub open spec fn without(s: Seq<NodeId>, x: NodeId) -> Seq<NodeId>
    decreases s.len(),
{
    if s.len() == 0 {
        Seq::empty()
    } else {
        without(s.drop_last(), x) + if s.last() == x {
            Seq::<NodeId>::empty()
        } else {
            seq![s.last()]
        }
    }
}

/// At most the first `MAX_SESSION_NODES` entries of `s`.
pub open spec fn keep_recent(s: Seq<NodeId>) -> Seq<NodeId> {
    if s.len() <= MAX_SESSION_NODES {
        s
    } else {
        s.subrange(0, MAX_SESSION_NODES as int)
    }
}

/// The session after an interaction with `x`: `x` first, then the earlier
/// session without `x`, cut to `MAX_SESSION_NODES`.
pub open spec fn session_after(s: Seq<NodeId>, x: NodeId) -> Seq<NodeId> {
    keep_recent(seq![x] + without(s, x))
}

/// The interaction count of `x` after one more interaction.
pub open spec fn count_after(h: Map<NodeId, u32>, x: NodeId) -> u32 {
    if h.contains_key(x) {
        (h[x] + 1) as u32
    } else {
        1u32
    }
}

/// `x` occurs in `s`.
#[verifier::opaque]
pub open spec fn occurs(s: Seq<NodeId>, x: NodeId) -> bool {
    exists|i: int| 0 <= i < s.len() && s[i] == x
}

/// A room is accessible when no room was added, or when it was added.
pub open spec fn room_accessible(rooms: Set<RoomId>, room_id: RoomId) -> bool {
    rooms.is_empty() || rooms.contains(room_id)
}

/// Access control: a room just added is accessible; after it, a room is
/// accessible exactly when it was added at some point.
pub proof fn lemma_access_after_add(rooms: Set<RoomId>, added: RoomId, x: RoomId)
    ensures
        room_accessible(rooms.insert(added), added),
        room_accessible(rooms.insert(added), x) <==> (x == added || rooms.contains(x)),
{
    assert(rooms.insert(added).contains(added));
}

/// The (node, count) entries of an interaction history, each once, in the
/// map's iteration order (which depends on the hasher's random seed, so no
/// order is stated).
fn history_entries(m: &HashMap<NodeId, u32>) -> (r: Vec<(NodeId, u32)>)
    ensures
        forall|i: int| 0 <= i < r@.len() ==> m@.contains_key(#[trigger] r@[i].0) && m@[r@[i].0] == r@[i].1,
        forall|k: NodeId| #[trigger] m@.contains_key(k) ==> exists|i: int| 0 <= i < r@.len() && r@[i].0 == k,
        forall|i: int, j: int| 0 <= i < j < r@.len() ==> #[trigger] r@[i].0 != #[trigger] r@[j].0,
{
    let ghost v = spec_hash_map_iter(m).remaining();
    let mut out: Vec<(NodeId, u32)> = Vec::new();
    for kv in it: m.iter()
        invariant
            it.seq() == v,
            out@.len() == it.index(),
            forall|i: int| 0 <= i < it.index() ==> #[trigger] out@[i] == (*v[i].0, *v[i].1),
    {
        let (k, v) = kv;
        out.push((*k, *v));
    }
    proof {
        assert(out@.len() == v.len());
        assert forall|i: int| 0 <= i < out@.len() implies m@.contains_key(#[trigger] out@[i].0) && m@[out@[i].0]
            == out@[i].1 by {
            assert(m@.contains_key(*v[i].0));
        }
        assert forall|k: NodeId| #[trigger] m@.contains_key(k) implies exists|i: int| 0 <= i < out@.len() && out@[i].0
            == k by {
            assert(v.contains((&k, &m@[k])));
            let i = choose|i: int| 0 <= i < v.len() && v[i] == (&k, &m@[k]);
            assert(out@[i].0 == k);
        }
        assert forall|i: int, j: int| 0 <= i < j < out@.len() implies #[trigger] out@[i].0 != #[trigger] out@[j].0 by {
            if out@[i].0 == out@[j].0 {
                assert(m@[*v[i].0] == *v[i].1 && m@[*v[j].0] == *v[j].1);
                assert(v[i] == v[j]);
            }
        }
    }
    out
}

/// Whether `x` occurs in `s`.
fn contains_node(s: &Vec<NodeId>, x: NodeId) -> (r: bool)
    ensures
        r == occurs(s@, x),
{
    let mut i: usize = 0;
    while i < s.len()
        invariant
            i <= s@.len(),
            forall|j: int| 0 <= j < i ==> s@[j] != x,
        decreases s@.len() - i,
    {
        if s[i] == x {
            proof {
                reveal(occurs);
            }
            return true;
        }
        i = i + 1;
    }
    proof {
        reveal(occurs);
    }
    false
}

impl UserContext {
    /// A context with neutral affinities, no history, all rooms accessible and
    /// recency decay 0.9.
    pub fn new(user_id: String) -> (r: Self)
        ensures
            r.user_id@ == user_id@,
            r.topic_affinity_bits@ == Seq::new(N_ANGLE_BINS as nat, |i: int| ONE_BITS),
            r.interaction_history@ == Map::<NodeId, u32>::empty(),
            r.session_nodes@ == Seq::<NodeId>::empty(),
            r.accessible_rooms@ == Set::<RoomId>::empty(),
            r.recency_decay_bits == DEFAULT_RECENCY_DECAY_BITS,
    {
        let topic_affinity_bits: Vec<u32> = vec![ONE_BITS; N_ANGLE_BINS];
        proof {
            assert(topic_affinity_bits@ =~= Seq::new(N_ANGLE_BINS as nat, |i: int| ONE_BITS));
        }
        UserContext {
            user_id,
            topic_affinity_bits,
            interaction_history: HashMap::new(),
            session_nodes: Vec::new(),
            accessible_rooms: HashSet::new(),
            recency_decay_bits: DEFAULT_RECENCY_DECAY_BITS,
        }
    }

    /// Records an interaction with a node: its count goes up by one and it
    /// moves to the front of the session, which keeps at most
    /// `MAX_SESSION_NODES` nodes.
    pub fn record_interaction(&mut self, node_id: NodeId)
        requires
            old(self).interaction_history@.contains_key(node_id) ==> old(
                self,
            ).interaction_history@[node_id] < u32::MAX,
        ensures
            final(self).interaction_history@ == old(self).interaction_history@.insert(
                node_id,
                count_after(old(self).interaction_history@, node_id),
            ),
            final(self).session_nodes@ == session_after(old(self).session_nodes@, node_id),
            final(self).user_id == old(self).user_id,
            final(self).topic_affinity_bits == old(self).topic_affinity_bits,
            final(self).accessible_rooms == old(self).accessible_rooms,
            final(self).recency_decay_bits == old(self).recency_decay_bits,
    {
        let c: u32 = match self.interaction_history.get(&node_id) {
            Some(c) => *c,
            None => 0,
        };
        self.interaction_history.insert(node_id, c + 1);
        let ghost s = self.session_nodes@;
        let mut kept: Vec<NodeId> = Vec::new();
        let mut i: usize = 0;
        while i < self.session_nodes.len()
            invariant
                s == self.session_nodes@,
                i <= s.len(),
                kept@ == without(s.subrange(0, i as int), node_id),
            decreases s.len() - i,
        {
            proof {
                assert(s.subrange(0, i + 1).drop_last() =~= s.subrange(0, i as int));
            }
            let n = self.session_nodes[i];
            if n != node_id {
                kept.push(n);
            }
            i = i + 1;
        }
        proof {
            assert(s.subrange(0, i as int) =~= s);
        }
        kept.insert(0, node_id);
        kept.truncate(MAX_SESSION_NODES);
        proof {
            assert(kept@ =~= session_after(s, node_id));
        }
        self.session_nodes = kept;
    }

    /// Sets the affinity of an angle bin (bits of a value already clamped to
    /// `[0, 1]`); bins out of range are ignored.
    pub fn set_topic_affinity_bits(&mut self, angle_bin: usize, affinity_bits: u32)
        ensures
            angle_bin < old(self).topic_affinity_bits@.len() ==> final(self).topic_affinity_bits@
                == old(self).topic_affinity_bits@.update(angle_bin as int, affinity_bits),
            angle_bin >= old(self).topic_affinity_bits@.len() ==> final(self).topic_affinity_bits@
                == old(self).topic_affinity_bits@,
            final(self).interaction_history == old(self).interaction_history,
            final(self).session_nodes == old(self).session_nodes,
            final(self).accessible_rooms == old(self).accessible_rooms,
    {
        if angle_bin < self.topic_affinity_bits.len() {
            self.topic_affinity_bits.set(angle_bin, affinity_bits);
        }
    }

    /// Adds an accessible room.
    pub fn add_accessible_room(&mut self, room_id: RoomId)
        ensures
            final(self).accessible_rooms@ == old(self).accessible_rooms@.insert(room_id),
            final(self).interaction_history == old(self).interaction_history,
            final(self).session_nodes == old(self).session_nodes,
    {
        self.accessible_rooms.insert(room_id);
    }

    /// Whether a room is accessible: every room is when none was added.
    pub fn can_access_room(&self, room_id: RoomId) -> (r: bool)
        ensures
            r == room_accessible(self.accessible_rooms@, room_id),
    {
        self.accessible_rooms.is_empty() || self.accessible_rooms.contains(&room_id)
    }

    /// Clears the session history.
    pub fn clear_session(&mut self)
        ensures
            final(self).session_nodes@ == Seq::<NodeId>::empty(),
            final(self).interaction_history == old(self).interaction_history,
            final(self).accessible_rooms == old(self).accessible_rooms,
    {
        self.session_nodes.clear();
    }

    /// Clears the interaction and session history.
    pub fn clear_all(&mut self)
        ensures
            final(self).session_nodes@ == Seq::<NodeId>::empty(),
            final(self).interaction_history@ == Map::<NodeId, u32>::empty(),
            final(self).accessible_rooms == old(self).accessible_rooms,
    {
        self.interaction_history.clear();
        self.session_nodes.clear();
    }
}

/// What the personalization boost of a node depends on.
#[derive(Debug, Clone, Copy, PartialEq, Eq)]
pub enum BoostInputs {
    /// The node's room is not accessible: the boost is zero.
    Inaccessible,
    /// The node may be boosted by its interaction count and by its position
    /// in the session (most recent first).
    Accessible { interaction_count: Option<u32>, session_position: Option<usize> },
}

/// Position of the first occurrence of `x` in `s`, if any.
pub open spec fn first_position(s: Seq<NodeId>, x: NodeId) -> Option<usize> {
    if exists|i: int| 0 <= i < s.len() && s[i] == x {
        Some(choose|i: usize| 0 <= i < s.len() && s[i as int] == x && forall|j: int| 0 <= j < i ==> s[j] != x)
    } else {
        None
    }
}

impl UserContext {
    /// The boost inputs of a node: inaccessible when its room is given and
    /// not accessible, else its interaction count and the position of its
    /// first occurrence in the session.
    pub fn boost_inputs(&self, node_id: NodeId, node_room: Option<RoomId>) -> (r: BoostInputs)
        ensures
            r == (if node_room is Some && !room_accessible(self.accessible_rooms@, node_room->0) {
                BoostInputs::Inaccessible
            } else {
                BoostInputs::Accessible {
                    interaction_count: if self.interaction_history@.contains_key(node_id) {
                        Some(self.interaction_history@[node_id])
                    } else {
                        None
                    },
                    session_position: first_position(self.session_nodes@, node_id),
                }
            }),
    {
        if let Some(room) = node_room {
            if !self.can_access_room(room) {
                return BoostInputs::Inaccessible;
            }
        }
        let interaction_count = match self.interaction_history.get(&node_id) {
            Some(c) => Some(*c),
            None => None,
        };
        let mut i: usize = 0;
        let mut session_position: Option<usize> = None;
        while i < self.session_nodes.len()
            invariant_except_break
                session_position is None,
            invariant
                i <= self.session_nodes@.len(),
                forall|j: int| 0 <= j < i ==> self.session_nodes@[j] != node_id,
            ensures
                session_position is None ==> i == self.session_nodes@.len(),
                session_position is Some ==> session_position == Some(i) && i < self.session_nodes@.len()
                    && self.session_nodes@[i as int] == node_id,
            decreases self.session_nodes@.len() - i,
        {
            if self.session_nodes[i] == node_id {
                session_position = Some(i);
                break;
            }
            i = i + 1;
        }
        proof {
            let s = self.session_nodes@;
            if session_position is Some {
                assert(s[i as int] == node_id);
                let c = choose|k: usize| 0 <= k < s.len() && s[k as int] == node_id && forall|j: int| 0 <= j < k ==> s[j] != node_id;
                assert(0 <= i < s.len() && s[i as int] == node_id && forall|j: int| 0 <= j < i ==> s[j] != node_id);
                if c < i {
                    assert(s[c as int] != node_id);
                } else if c > i {
                    assert(s[i as int] != node_id);
                }
            } else {
                assert(!(exists|k: int| 0 <= k < s.len() && s[k] == node_id));
            }
        }
        BoostInputs::Accessible { interaction_count, session_position }
    }
}

impl Default for UserContext {
    /// The context of the anonymous user.
    fn default() -> (r: Self)
        ensures
            r.user_id@ == "anonymous"@,
            r.topic_affinity_bits@ == Seq::new(N_ANGLE_BINS as nat, |i: int| ONE_BITS),
            r.interaction_history@ == Map::<NodeId, u32>::empty(),
            r.session_nodes@ == Seq::<NodeId>::empty(),
            r.accessible_rooms@ == Set::<RoomId>::empty(),
            r.recency_decay_bits == DEFAULT_RECENCY_DECAY_BITS,
    {
        UserContext::new("anonymous".to_string())
    }
}

/// The session part of the feed: the first `max_seeds / 2` session nodes.
pub open spec fn feed_head(s: Seq<NodeId>, max_seeds: nat) -> Seq<NodeId> {
    if s.len() <= max_seeds / 2 {
        s
    } else {
        s.subrange(0, (max_seeds / 2) as int)
    }
}

/// Node `x` may join the feed after the session part `head`: it has an
/// interaction count and is not in `head`.
pub open spec fn feed_eligible(h: Map<NodeId, u32>, head: Seq<NodeId>, x: NodeId) -> bool {
    h.contains_key(x) && !occurs(head, x)
}

/// The feed part chosen from the history: distinct eligible nodes, by
/// non-increasing interaction count, at most `room` of them, and every
/// eligible node left out has no more interactions than any chosen one, which
/// happens only when `room` nodes were chosen.
pub open spec fn feed_rest_ok(h: Map<NodeId, u32>, head: Seq<NodeId>, rest: Seq<NodeId>, room: nat) -> bool {
    &&& rest.len() <= room
    &&& forall|i: int| 0 <= i < rest.len() ==> feed_eligible(h, head, #[trigger] rest[i])
    &&& forall|i: int, j: int| 0 <= i < j < rest.len() ==> #[trigger] rest[i] != #[trigger] rest[j]
    &&& forall|i: int, j: int| 0 <= i < j < rest.len() ==> h[#[trigger] rest[i]] >= h[#[trigger] rest[j]]
    &&& forall|x: NodeId|
        #[trigger] feed_eligible(h, head, x) && !occurs(rest, x) ==> rest.len() == room && forall|i: int|
            0 <= i < rest.len() ==> h[x] <= h[#[trigger] rest[i]]
}

/// Candidates for the history part of the feed: each eligible node once,
/// with its interaction count.
pub open spec fn candidates_ok(h: Map<NodeId, u32>, head: Seq<NodeId>, c: Seq<(NodeId, u32)>) -> bool {
    &&& forall|j: int| 0 <= j < c.len() ==> feed_eligible(h, head, (#[trigger] c[j]).0) && h[c[j].0] == c[j].1
    &&& forall|a: int, b: int| 0 <= a < b < c.len() ==> #[trigger] c[a].0 != #[trigger] c[b].0
    &&& forall|x: NodeId| #[trigger] feed_eligible(h, head, x) ==> has_key(c, x)
}

/// Some entry of `c` has node `x`.
#[verifier::opaque]
pub open spec fn has_key(c: Seq<(NodeId, u32)>, x: NodeId) -> bool {
    exists|j: int| 0 <= j < c.len() && c[j].0 == x
}

/// Some entry among the first `k` of `es` has node `x`.
#[verifier::opaque]
pub open spec fn has_key_before(es: Seq<(NodeId, u32)>, k: int, x: NodeId) -> bool {
    exists|i: int| 0 <= i < k && es[i].0 == x
}

/// The history entries as listed: each with its count in `h`, no node twice.
pub open spec fn entries_ok(h: Map<NodeId, u32>, es: Seq<(NodeId, u32)>) -> bool {
    &&& forall|i: int| 0 <= i < es.len() ==> h.contains_key(#[trigger] es[i].0) && h[es[i].0] == es[i].1
    &&& forall|i: int, j: int| 0 <= i < j < es.len() ==> #[trigger] es[i].0 != #[trigger] es[j].0
}

/// `c` holds exactly the entries among the first `k` whose node is not in
/// `hd`, each once.
#[verifier::opaque]
pub open spec fn candidates_prefix(h: Map<NodeId, u32>, hd: Seq<NodeId>, es: Seq<(NodeId, u32)>, k: int, c: Seq<(NodeId, u32)>) -> bool {
    &&& forall|j: int| 0 <= j < c.len() ==> feed_eligible(h, hd, (#[trigger] c[j]).0) && h[c[j].0] == c[j].1
    &&& forall|j: int| 0 <= j < c.len() ==> has_key_before(es, k, (#[trigger] c[j]).0)
    &&& forall|a: int, b: int| 0 <= a < b < c.len() ==> #[trigger] c[a].0 != #[trigger] c[b].0
    &&& forall|i: int| 0 <= i < k && !occurs(hd, (#[trigger] es[i]).0) ==> has_key(c, es[i].0)
}

/// Skipping an entry whose node is in `hd` keeps `candidates_prefix`.
proof fn lemma_candidates_skip(h: Map<NodeId, u32>, hd: Seq<NodeId>, es: Seq<(NodeId, u32)>, k: int, c: Seq<(NodeId, u32)>)
    requires
        0 <= k < es.len(),
        candidates_prefix(h, hd, es, k, c),
        occurs(hd, es[k].0),
    ensures
        candidates_prefix(h, hd, es, k + 1, c),
{
    reveal(candidates_prefix);
    assert forall|j: int| 0 <= j < c.len() implies has_key_before(es, k + 1, (#[trigger] c[j]).0) by {
        reveal(has_key_before);
        let i0 = choose|i: int| 0 <= i < k && es[i].0 == c[j].0;
        assert(0 <= i0 < k + 1);
    }
    assert forall|i: int| 0 <= i < k + 1 && !occurs(hd, (#[trigger] es[i]).0) implies has_key(c, es[i].0) by {
        assert(i != k);
    }
}

/// Taking an entry whose node is not in `hd` keeps `candidates_prefix`.
proof fn lemma_candidates_take(h: Map<NodeId, u32>, hd: Seq<NodeId>, es: Seq<(NodeId, u32)>, k: int, c: Seq<(NodeId, u32)>)
    requires
        entries_ok(h, es),
        0 <= k < es.len(),
        candidates_prefix(h, hd, es, k, c),
        !occurs(hd, es[k].0),
    ensures
        candidates_prefix(h, hd, es, k + 1, c.push(es[k])),
{
    reveal(candidates_prefix);
    let e = es[k];
    let c2 = c.push(e);
    assert(c2[c.len() as int] == e);
    assert forall|j: int| 0 <= j < c2.len() implies feed_eligible(h, hd, (#[trigger] c2[j]).0) && h[c2[j].0] == c2[j].1 by {
        if j < c.len() {
            assert(c2[j] == c[j]);
        }
    }
    assert forall|j: int| 0 <= j < c2.len() implies has_key_before(es, k + 1, (#[trigger] c2[j]).0) by {
        reveal(has_key_before);
        if j < c.len() {
            assert(c2[j] == c[j]);
            assert(has_key_before(es, k, c[j].0));
            let i0 = choose|i: int| 0 <= i < k && es[i].0 == c[j].0;
            assert(0 <= i0 < k + 1);
        } else {
            assert(es[k].0 == c2[j].0);
        }
    }
    assert forall|a: int, b: int| 0 <= a < b < c2.len() implies #[trigger] c2[a].0 != #[trigger] c2[b].0 by {
        assert(c2[a] == c[a]);
        if b == c.len() {
            assert(has_key_before(es, k, c[a].0));
            reveal(has_key_before);
            let i0 = choose|i: int| 0 <= i < k && es[i].0 == c[a].0;
            assert(es[i0].0 != es[k].0);
        } else {
            assert(c2[b] == c[b]);
        }
    }
    assert forall|i: int| 0 <= i < k + 1 && !occurs(hd, (#[trigger] es[i]).0) implies has_key(c2, es[i].0) by {
        reveal(has_key);
        if i == k {
            assert(c2[c.len() as int].0 == es[i].0);
        } else {
            assert(has_key(c, es[i].0));
            let j0 = choose|j: int| 0 <= j < c.len() && c[j].0 == es[i].0;
            assert(c2[j0] == c[j0]);
        }
    }
}

/// A full scan gives `candidates_ok`.
proof fn lemma_candidates_done(h: Map<NodeId, u32>, hd: Seq<NodeId>, es: Seq<(NodeId, u32)>, c: Seq<(NodeId, u32)>)
    requires
        forall|x: NodeId| #[trigger] h.contains_key(x) ==> exists|i: int| 0 <= i < es.len() && es[i].0 == x,
        candidates_prefix(h, hd, es, es.len() as int, c),
    ensures
        candidates_ok(h, hd, c),
{
    reveal(candidates_prefix);
    assert forall|x: NodeId| #[trigger] feed_eligible(h, hd, x) implies has_key(c, x) by {
        let i0 = choose|i: int| 0 <= i < es.len() && es[i].0 == x;
        assert(!occurs(hd, es[i0].0));
    }
}

/// The history entries whose node is not in `head`.
fn feed_candidates(entries: &Vec<(NodeId, u32)>, head: &Vec<NodeId>, Ghost(h): Ghost<Map<NodeId, u32>>) -> (c: Vec<(NodeId, u32)>)
    requires
        entries_ok(h, entries@),
        forall|k: NodeId| #[trigger] h.contains_key(k) ==> exists|i: int| 0 <= i < entries@.len() && entries@[i].0 == k,
    ensures
        candidates_ok(h, head@, c@),
{
    let mut cands: Vec<(NodeId, u32)> = Vec::new();
    let mut k: usize = 0;
    proof {
        reveal(candidates_prefix);
    }
    while k < entries.len()
        invariant
            k <= entries@.len(),
            entries_ok(h, entries@),
            candidates_prefix(h, head@, entries@, k as int, cands@),
        decreases entries@.len() - k,
    {
        let e = entries[k];
        if !contains_node(head, e.0) {
            proof {
                lemma_candidates_take(h, head@, entries@, k as int, cands@);
            }
            cands.push(e);
        } else {
            proof {
                lemma_candidates_skip(h, head@, entries@, k as int, cands@);
            }
        }
        k = k + 1;
    }
    proof {
        lemma_candidates_done(h, head@, entries@, cands@);
    }
    cands
}

/// Index of an unused candidate with the highest count (the first such), or
/// `c.len()` when every candidate is used.
fn best_unused(c: &Vec<(NodeId, u32)>, used: &Vec<bool>) -> (best: usize)
    requires
        used@.len() == c@.len(),
    ensures
        best <= c@.len(),
        best == c@.len() ==> forall|a: int| 0 <= a < c@.len() ==> #[trigger] used@[a],
        best < c@.len() ==> !used@[best as int] && forall|a: int|
            0 <= a < c@.len() && !#[trigger] used@[a] ==> c@[a].1 <= c@[best as int].1,
{
    let n = c.len();
    let mut best: usize = n;
    let mut j: usize = 0;
    while j < n
        invariant
            n == c@.len(),
            used@.len() == n,
            j <= n,
            best == n || (best < j && !used@[best as int]),
            best == n ==> forall|a: int| 0 <= a < j ==> #[trigger] used@[a],
            best < n ==> forall|a: int| 0 <= a < j && !#[trigger] used@[a] ==> c@[a].1 <= c@[best as int].1,
        decreases n - j,
    {
        if !used[j] && (best == n || c[j].1 > c[best].1) {
            best = j;
        }
        j = j + 1;
    }
    best
}

/// Selection state: `idx` lists the chosen candidates in order, which are
/// exactly the used ones, by non-increasing count, none below an unused one.
pub open spec fn selection_ok(c: Seq<(NodeId, u32)>, used: Seq<bool>, idx: Seq<int>, rest: Seq<NodeId>) -> bool {
    &&& used.len() == c.len()
    &&& rest.len() == idx.len()
    &&& forall|t: int| 0 <= t < idx.len() ==> 0 <= #[trigger] idx[t] < c.len() && used[idx[t]] && rest[t] == c[idx[t]].0
    &&& forall|t: int, u: int| 0 <= t < u < idx.len() ==> #[trigger] idx[t] != #[trigger] idx[u]
    &&& forall|j: int| 0 <= j < c.len() && #[trigger] used[j] ==> exists|t: int| 0 <= t < idx.len() && idx[t] == j
    &&& forall|t: int, u: int| 0 <= t < u < idx.len() ==> c[#[trigger] idx[t]].1 >= c[#[trigger] idx[u]].1
    &&& forall|t: int, j: int| 0 <= t < idx.len() && 0 <= j < c.len() && !#[trigger] used[j] ==> c[j].1 <= c[#[trigger] idx[t]].1
}

/// One selection step keeps `selection_ok`.
proof fn lemma_selection_step(c: Seq<(NodeId, u32)>, used: Seq<bool>, idx: Seq<int>, rest: Seq<NodeId>, best: int)
    requires
        selection_ok(c, used, idx, rest),
        0 <= best < c.len(),
        !used[best],
        forall|a: int| 0 <= a < c.len() && !#[trigger] used[a] ==> c[a].1 <= c[best].1,
    ensures
        selection_ok(c, used.update(best, true), idx.push(best), rest.push(c[best].0)),
{
    let used2 = used.update(best, true);
    let idx2 = idx.push(best);
    let rest2 = rest.push(c[best].0);
    let n = idx.len();
    assert forall|t: int| 0 <= t < idx2.len() implies 0 <= #[trigger] idx2[t] < c.len() && used2[idx2[t]] && rest2[t] == c[idx2[t]].0 by {
        if t < n {
            assert(idx2[t] == idx[t]);
        }
    }
    assert forall|t: int, u: int| 0 <= t < u < idx2.len() implies #[trigger] idx2[t] != #[trigger] idx2[u] by {
        assert(idx2[t] == idx[t]);
        if u == n {
            assert(used[idx[t]]);
        } else {
            assert(idx2[u] == idx[u]);
        }
    }
    assert forall|a: int| 0 <= a < c.len() && #[trigger] used2[a] implies exists|t: int| 0 <= t < idx2.len() && idx2[t] == a by {
        if a == best {
            assert(idx2[n as int] == a);
        } else {
            assert(used[a]);
            let t0 = choose|t: int| 0 <= t < n && idx[t] == a;
            assert(idx2[t0] == idx[t0]);
        }
    }
    assert forall|t: int, u: int| 0 <= t < u < idx2.len() implies c[#[trigger] idx2[t]].1 >= c[#[trigger] idx2[u]].1 by {
        assert(idx2[t] == idx[t]);
        if u < n {
            assert(idx2[u] == idx[u]);
        }
    }
    assert forall|t: int, a: int| 0 <= t < idx2.len() && 0 <= a < c.len() && !#[trigger] used2[a] implies c[a].1 <= c[#[trigger] idx2[t]].1 by {
        assert(!used[a]);
        if t < n {
            assert(idx2[t] == idx[t]);
        }
    }
}

/// A finished selection meets `feed_rest_ok`.
proof fn lemma_selection_done(h: Map<NodeId, u32>, head: Seq<NodeId>, c: Seq<(NodeId, u32)>, used: Seq<bool>, idx: Seq<int>, rest: Seq<NodeId>, want: nat)
    requires
        candidates_ok(h, head, c),
        selection_ok(c, used, idx, rest),
        rest.len() <= want,
        rest.len() < want ==> forall|j: int| 0 <= j < c.len() ==> #[trigger] used[j],
    ensures
        feed_rest_ok(h, head, rest, want),
{
    assert forall|i: int| 0 <= i < rest.len() implies feed_eligible(h, head, #[trigger] rest[i]) by {
        assert(rest[i] == c[idx[i]].0);
    }
    assert forall|i: int, j: int| 0 <= i < j < rest.len() implies #[trigger] rest[i] != #[trigger] rest[j] by {
        assert(rest[i] == c[idx[i]].0 && rest[j] == c[idx[j]].0);
        assert(idx[i] != idx[j]);
    }
    assert forall|i: int, j: int| 0 <= i < j < rest.len() implies h[#[trigger] rest[i]] >= h[#[trigger] rest[j]] by {
        assert(rest[i] == c[idx[i]].0 && rest[j] == c[idx[j]].0);
        assert(c[idx[i]].1 >= c[idx[j]].1);
    }
    assert forall|x: NodeId| #[trigger] feed_eligible(h, head, x) && !occurs(rest, x) implies rest.len() == want && forall|i: int|
        0 <= i < rest.len() ==> h[x] <= h[#[trigger] rest[i]] by {
        reveal(has_key);
        let j0 = choose|j: int| 0 <= j < c.len() && c[j].0 == x;
        if used[j0] {
            let t0 = choose|t: int| 0 <= t < idx.len() && idx[t] == j0;
            assert(rest[t0] == x);
            reveal(occurs);
        }
        assert forall|i: int| 0 <= i < rest.len() implies h[x] <= h[#[trigger] rest[i]] by {
            assert(rest[i] == c[idx[i]].0);
            assert(c[j0].1 <= c[idx[i]].1);
        }
    }
}

/// Up to `want` candidate nodes, by non-increasing count.
fn select_by_count(c: &Vec<(NodeId, u32)>, want: usize, Ghost(h): Ghost<Map<NodeId, u32>>, Ghost(head): Ghost<Seq<NodeId>>) -> (rest: Vec<NodeId>)
    requires
        candidates_ok(h, head, c@),
    ensures
        feed_rest_ok(h, head, rest@, want as nat),
{
    let n = c.len();
    let mut used: Vec<bool> = vec![false; n];
    let mut rest: Vec<NodeId> = Vec::new();
    let ghost mut idx: Seq<int> = Seq::empty();
    loop
        invariant
            n == c@.len(),
            rest@.len() <= want,
            selection_ok(c@, used@, idx, rest@),
        ensures
            selection_ok(c@, used@, idx, rest@),
            rest@.len() <= want,
            rest@.len() < want ==> forall|j: int| 0 <= j < c@.len() ==> #[trigger] used@[j],
        decreases want - rest@.len(),
    {
        if rest.len() >= want {
            break;
        }
        let best = best_unused(c, &used);
        if best == n {
            break;
        }
        proof {
            lemma_selection_step(c@, used@, idx, rest@, best as int);
            idx = idx.push(best as int);
        }
        used.set(best, true);
        rest.push(c[best].0);
    }
    proof {
        lemma_selection_done(h, head, c@, used@, idx, rest@, want as nat);
    }
    rest
}

impl UserContext {
    /// Nodes to seed an activity feed: the first `max_seeds / 2` session
    /// nodes, then the most-interacted other nodes, by count, up to
    /// `max_seeds` in all. Among nodes with equal counts the order follows
    /// the history map's iteration order, which is not fixed.
    pub fn get_feed_seeds(&self, max_seeds: usize) -> (r: Vec<NodeId>)
        ensures
            r@.len() >= feed_head(self.session_nodes@, max_seeds as nat).len(),
            r@.subrange(0, feed_head(self.session_nodes@, max_seeds as nat).len() as int) == feed_head(
                self.session_nodes@,
                max_seeds as nat,
            ),
            feed_rest_ok(
                self.interaction_history@,
                feed_head(self.session_nodes@, max_seeds as nat),
                r@.subrange(feed_head(self.session_nodes@, max_seeds as nat).len() as int, r@.len() as int),
                (max_seeds - feed_head(self.session_nodes@, max_seeds as nat).len()) as nat,
            ),
    {
        let ghost head = feed_head(self.session_nodes@, max_seeds as nat);
        let half = max_seeds / 2;
        let mut seeds: Vec<NodeId> = Vec::new();
        let mut i: usize = 0;
        while i < half && i < self.session_nodes.len()
            invariant
                i <= half,
                i <= self.session_nodes@.len(),
                seeds@ == self.session_nodes@.subrange(0, i as int),
            decreases half - i,
        {
            seeds.push(self.session_nodes[i]);
            i = i + 1;
            proof {
                assert(seeds@ =~= self.session_nodes@.subrange(0, i as int));
            }
        }
        proof {
            assert(seeds@ =~= head);
        }
        let entries = history_entries(&self.interaction_history);
        let cands = feed_candidates(&entries, &seeds, Ghost(self.interaction_history@));
        let want = max_seeds - seeds.len();
        let rest = select_by_count(&cands, want, Ghost(self.interaction_history@), Ghost(head));
        let ghost rest_v = rest@;
        let mut r = seeds;
        let mut k: usize = 0;
        while k < rest.len()
            invariant
                k <= rest_v.len(),
                rest_v == rest@,
                r@ == head + rest_v.subrange(0, k as int),
            decreases rest_v.len() - k,
        {
            r.push(rest[k]);
            k = k + 1;
            proof {
                assert(r@ =~= head + rest_v.subrange(0, k as int));
            }
        }
        proof {
            assert(rest_v.subrange(0, k as int) =~= rest_v);
            assert(r@.subrange(0, head.len() as int) =~= head);
            assert(r@.subrange(head.len() as int, r@.len() as int) =~= rest_v);
        }
        r
    }
}

} // verus!
