//! Keyword-based query parsing: natural language to a (source node, angle bin)
//! query.

use vstd::prelude::*;
use crate::graph::{AngleBin, NodeId, N_ANGLE_BINS};
use crate::messages::fmt_usize_between;
use crate::text::{chars_of, contains_chars, contains_seq, lowercase, to_lowercase};

verus! {

/// Query parser that converts natural language to graph queries.
pub struct QueryParser {
    /// Keywords naming a source node, with that node (in lookup order).
    node_keywords: Vec<(String, NodeId)>,
    /// Direction phrases with their angle bins.
    direction_keywords: Vec<(String, AngleBin)>,
}

/// The index of the first keyword of `kws` that occurs in `text`, if any.
pub open spec fn first_keyword_hit(text: Seq<char>, kws: Seq<(Seq<char>, NodeId)>) -> Option<int> {
    if exists|k: int| 0 <= k < kws.len() && contains_seq(text, #[trigger] kws[k].0) {
        Some(
            choose|k: int|
                0 <= k < kws.len() && contains_seq(text, #[trigger] kws[k].0) && forall|j: int|
                    0 <= j < k ==> !contains_seq(text, #[trigger] kws[j].0),
        )
    } else {
        None
    }
}

impl QueryParser {
    /// The node keywords, as texts, with their nodes.
    pub closed spec fn node_keywords(self) -> Seq<(Seq<char>, NodeId)> {
        self.node_keywords@.map_values(|p: (String, NodeId)| (p.0@, p.1))
    }

    /// The angle bins of the direction phrases, in order.
    pub closed spec fn direction_bins(self) -> Seq<AngleBin> {
        self.direction_keywords@.map_values(|p: (String, AngleBin)| p.1)
    }

    /// The parse of an already lower-cased query: the node of the first node
    /// keyword occurring in it, with angle bin 0; `None` when no keyword occurs.
    pub open spec fn parse_spec(self, text: Seq<char>) -> Option<(NodeId, AngleBin)> {
        match first_keyword_hit(text, self.node_keywords()) {
            Some(k) => Some((self.node_keywords()[k].1, 0u8)),
            None => None,
        }
    }

    /// A parser with the built-in mappings: "start" and "beginning" name node 0,
    /// and one direction phrase per angle bin.
    pub fn new() -> (r: Self)
        ensures
            r.node_keywords() == seq![("start"@, 0u32), ("beginning"@, 0u32)],
            r.direction_bins().len() == N_ANGLE_BINS,
            forall|i: int| 0 <= i < N_ANGLE_BINS ==> #[trigger] r.direction_bins()[i] == i,
    {
        let mut node_keywords: Vec<(String, NodeId)> = Vec::new();
        node_keywords.push(("start".to_string(), 0));
        node_keywords.push(("beginning".to_string(), 0));
        let mut direction_keywords: Vec<(String, AngleBin)> = Vec::new();
        let mut i: usize = 0;
        while i < N_ANGLE_BINS
            invariant
                i <= N_ANGLE_BINS,
                direction_keywords@.len() == i,
                forall|j: int| 0 <= j < i ==> (#[trigger] direction_keywords@[j]).1 == j,
            decreases N_ANGLE_BINS - i,
        {
            direction_keywords.push((fmt_usize_between("direction_", i, ""), i as AngleBin));
            i = i + 1;
        }
        let r = QueryParser { node_keywords, direction_keywords };
        proof {
            assert(r.node_keywords() =~= seq![("start"@, 0u32), ("beginning"@, 0u32)]);
        }
        r
    }

    /// Parses an already lower-cased query to `(source node, angle bin)`.
    pub fn parse_lowered(&self, query_lower: &str) -> (r: Option<(NodeId, AngleBin)>)
        ensures
            r == self.parse_spec(query_lower@),
    {
        let q = chars_of(query_lower);
        let ghost kws = self.node_keywords();
        let mut k: usize = 0;
        while k < self.node_keywords.len()
            invariant
                kws == self.node_keywords(),
                kws.len() == self.node_keywords@.len(),
                q@ == query_lower@,
                k <= kws.len(),
                forall|j: int| 0 <= j < k ==> !contains_seq(query_lower@, #[trigger] kws[j].0),
            decreases kws.len() - k,
        {
            let kw = chars_of(self.node_keywords[k].0.as_str());
            proof {
                assert(kws[k as int].0 == kw@);
            }
            if contains_chars(q.as_slice(), kw.as_slice()) {
                let node = self.node_keywords[k].1;
                proof {
                    assert(kws[k as int].1 == node);
                    let w = k as int;
                    assert(0 <= w < kws.len() && contains_seq(query_lower@, kws[w].0));
                    let c = first_keyword_hit(query_lower@, kws)->0;
                    assert(c == w) by {
                        if c < w {
                            assert(!contains_seq(query_lower@, kws[c].0));
                        }
                        if c > w {
                            assert(!contains_seq(query_lower@, kws[w].0));
                        }
                    }
                }
                return Some((node, 0));
            }
            k = k + 1;
        }
        None
    }

    /// Parses a natural-language query to `(source node, angle bin)` by looking
    /// for node keywords in its lower-case form.
    pub fn parse_query(&self, query: &str) -> (r: Option<(NodeId, AngleBin)>)
        ensures
            r == self.parse_spec(lowercase(query@)),
    {
        let lower = to_lowercase(query);
        self.parse_lowered(lower.as_str())
    }
}

impl Default for QueryParser {
    fn default() -> (r: Self)
        ensures
            r.node_keywords() == seq![("start"@, 0u32), ("beginning"@, 0u32)],
            r.direction_bins().len() == N_ANGLE_BINS,
    {
        Self::new()
    }
}

} // verus!
