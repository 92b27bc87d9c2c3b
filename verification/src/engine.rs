//! The decisions of the learning engine: which feedback is accepted, and when
//! learned state is rebuilt.

use vstd::prelude::*;
use crate::graph::{EdgeProps, Graph, NodeId};
use crate::messages::{decimal, fmt_u64_between, fmt_usize_between};
use crate::transitions::TransitionError;

verus! {

/// Identifier of a query whose context is kept for feedback.
pub type QueryId = u64;

/// Errors of feedback recording.
#[derive(Debug)]
pub enum FeedbackError {
    /// The query id is unknown or its context expired.
    UnknownQuery(QueryId),
    /// The target node is out of bounds.
    InvalidTarget(NodeId),
    /// The target node received no mass from the query's seeds.
    TargetUnreachable(NodeId),
    /// The transition store failed.
    Transition(TransitionError),
}

impl From<TransitionError> for FeedbackError {
    fn from(e: TransitionError) -> (r: FeedbackError) {
        FeedbackError::Transition(e)
    }
}

impl vstd::std_specs::convert::FromSpecImpl<TransitionError> for FeedbackError {
    open spec fn obeys_from_spec() -> bool {
        true
    }

    open spec fn from_spec(e: TransitionError) -> FeedbackError {
        FeedbackError::Transition(e)
    }
}

impl FeedbackError {
    /// The message this error displays as.
    pub fn to_message(&self) -> (r: String)
        ensures
            self.displays_as(r@),
    {
        match self {
            FeedbackError::UnknownQuery(q) => {
                let m = fmt_u64_between("unknown or expired query id ", *q, "");
                proof {
                    reveal_strlit("");
                    assert(m@ =~= "unknown or expired query id "@ + decimal(*q as nat));
                }
                m
            },
            FeedbackError::InvalidTarget(t) => fmt_usize_between("target node ", *t as usize, " is out of bounds"),
            FeedbackError::TargetUnreachable(t) => fmt_usize_between(
                "target node ",
                *t as usize,
                " is unreachable from the query's seeds within max_depth",
            ),
            FeedbackError::Transition(e) => e.to_message(),
        }
    }

    /// `m` is this error's message.
    pub open spec fn displays_as(self, m: Seq<char>) -> bool {
        match self {
            FeedbackError::UnknownQuery(q) => m == "unknown or expired query id "@ + decimal(q as nat),
            FeedbackError::InvalidTarget(t) => m == "target node "@ + decimal(t as nat) + " is out of bounds"@,
            FeedbackError::TargetUnreachable(t) => m == "target node "@ + decimal(t as nat)
                + " is unreachable from the query's seeds within max_depth"@,
            FeedbackError::Transition(e) => e.displays_as(m),
        }
    }
}

/// Whether feedback on a query is accepted, checked in order: the query's
/// context must be cached and not expired, the target must be a node, and it
/// must have received mass from the query's seeds.
pub fn check_feedback(
    query_id: QueryId,
    cached: bool,
    expired: bool,
    target: NodeId,
    num_nodes: usize,
    reachable: bool,
) -> (r: Result<(), FeedbackError>)
    ensures
        !cached || expired ==> (r matches Err(FeedbackError::UnknownQuery(q)) && q == query_id),
        cached && !expired && target >= num_nodes ==> (r matches Err(FeedbackError::InvalidTarget(t))
            && t == target),
        cached && !expired && target < num_nodes && !reachable ==> (r matches Err(
            FeedbackError::TargetUnreachable(t),
        ) && t == target),
        r is Ok <==> cached && !expired && target < num_nodes && reachable,
{
    if !cached || expired {
        return Err(FeedbackError::UnknownQuery(query_id));
    }
    if target as usize >= num_nodes {
        return Err(FeedbackError::InvalidTarget(target));
    }
    if !reachable {
        return Err(FeedbackError::TargetUnreachable(target));
    }
    Ok(())
}

/// Whether learned state is due for a rebuild: an automatic cadence is set and
/// at least that many events were recorded since the last rebuild.
pub fn rebuild_due(rebuild_every_n: u32, events_since_rebuild: u32) -> (r: bool)
    ensures
        r == (rebuild_every_n > 0 && events_since_rebuild >= rebuild_every_n),
{
    rebuild_every_n > 0 && events_since_rebuild >= rebuild_every_n
}

/// The event counter after one more recorded event (saturating at `u32::MAX`).
pub fn count_event(events_since_rebuild: u32) -> (r: u32)
    ensures
        events_since_rebuild < u32::MAX ==> r == events_since_rebuild + 1,
        events_since_rebuild == u32::MAX ==> r == u32::MAX,
{
    events_since_rebuild.saturating_add(1)
}

/// The largest relation id among `e`, or `None` when `e` is empty.
pub open spec fn max_relation(e: Seq<EdgeProps>) -> Option<usize>
    decreases e.len(),
{
    if e.len() == 0 {
        None
    } else {
        let last = e.last().relation as usize;
        match max_relation(e.drop_last()) {
            None => Some(last),
            Some(m) => Some(if m < last { last } else { m }),
        }
    }
}

/// `max_relation` is a relation of `e` that no relation of `e` exceeds.
pub proof fn lemma_max_relation(e: Seq<EdgeProps>)
    ensures
        max_relation(e) is None <==> e.len() == 0,
        max_relation(e) matches Some(m) ==> (exists|i: int| 0 <= i < e.len() && e[i].relation as usize == m)
            && forall|i: int| 0 <= i < e.len() ==> #[trigger] e[i].relation as usize <= m,
    decreases e.len(),
{
    if e.len() > 0 {
        lemma_max_relation(e.drop_last());
        let m = max_relation(e).unwrap();
        assert forall|i: int| 0 <= i < e.len() implies #[trigger] e[i].relation as usize <= m by {
            if i < e.len() - 1 {
                assert(e[i] == e.drop_last()[i]);
            }
        }
        let p = max_relation(e.drop_last());
        if p is Some && m == p->0 {
            let i0 = choose|i: int| 0 <= i < e.drop_last().len() && e.drop_last()[i].relation as usize == m;
            assert(e[i0] == e.drop_last()[i0]);
        } else {
            assert(e[e.len() - 1].relation as usize == m);
        }
    }
}

/// Whether learned transitions covering `store_len` relations fit a graph:
/// every relation id the graph uses must be below `store_len`. A graph
/// without edges fits any store; otherwise a failure names the largest
/// relation id the graph uses.
pub fn check_relation_coverage(graph: &Graph, store_len: usize) -> (r: Result<(), TransitionError>)
    ensures
        r is Ok <==> (forall|i: int| 0 <= i < graph@.edge_props.len() ==> (#[trigger] graph@.edge_props[i]).relation < store_len),
        r matches Err(e) ==> (e matches TransitionError::RelationCoverage { store_len: s, graph_max: m }
            && s == store_len && max_relation(graph@.edge_props) == Some(m)),
{
    let edges = graph.edge_props();
    let ghost e = edges@;
    let mut max: Option<usize> = None;
    let mut i: usize = 0;
    while i < edges.len()
        invariant
            e == edges@,
            i <= e.len(),
            max == max_relation(e.subrange(0, i as int)),
        decreases e.len() - i,
    {
        proof {
            assert(e.subrange(0, i + 1).drop_last() =~= e.subrange(0, i as int));
        }
        let rel = edges[i].relation as usize;
        max = match max {
            None => Some(rel),
            Some(m) => Some(if m < rel { rel } else { m }),
        };
        i = i + 1;
    }
    proof {
        assert(e.subrange(0, i as int) =~= e);
        lemma_max_relation(e);
    }
    match max {
        Some(graph_max) => {
            if store_len <= graph_max {
                let ghost i0 = choose|i: int| 0 <= i < e.len() && e[i].relation as usize == graph_max;
                assert(!(e[i0].relation < store_len));
                Err(TransitionError::RelationCoverage { store_len, graph_max })
            } else {
                Ok(())
            }
        },
        None => Ok(()),
    }
}

/// Where the depth weights of a query come from.
#[derive(Debug, Clone, Copy, PartialEq, Eq, Structural)]
pub enum WeightsSource {
    /// The weights the caller passed.
    Caller,
    /// The weights learned for the query's hop hint.
    Learned,
    /// The engine's configured default weights.
    EngineDefault,
    /// No weights: every depth counts fully.
    Uniform,
}

/// Chooses the depth weights of a query, which need `max_depth + 1` entries:
/// the caller's when given; otherwise, with a hop hint, the learned ones
/// (`learned_len` is their length) when their length fits, else none;
/// without a hop hint, the engine default when its length fits, else none.
pub fn resolve_weights(
    caller_given: bool,
    learned_len: Option<usize>,
    default_len: usize,
    max_depth: usize,
) -> (r: WeightsSource)
    ensures
        caller_given ==> r == WeightsSource::Caller,
        !caller_given && learned_len is Some ==> r == (if learned_len->0 == max_depth + 1 {
            WeightsSource::Learned
        } else {
            WeightsSource::Uniform
        }),
        !caller_given && learned_len is None ==> r == (if default_len == max_depth + 1 {
            WeightsSource::EngineDefault
        } else {
            WeightsSource::Uniform
        }),
{
    if caller_given {
        WeightsSource::Caller
    } else {
        match learned_len {
            Some(len) => {
                if len > 0 && len - 1 == max_depth {
                    WeightsSource::Learned
                } else {
                    WeightsSource::Uniform
                }
            },
            None => {
                if default_len > 0 && default_len - 1 == max_depth {
                    WeightsSource::EngineDefault
                } else {
                    WeightsSource::Uniform
                }
            },
        }
    }
}

} // verus!
