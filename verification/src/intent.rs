//! Query intent classification: mapping natural-language queries to relation
//! names by keyword matching.

use vstd::prelude::*;
use crate::text::{chars_of, contains_chars, contains_seq, lowercase, to_lowercase};

verus! {

/// Query intent types that map to semantic directions.
#[derive(Debug, Clone, Copy, PartialEq, Eq, Structural)]
pub enum QueryIntent {
    /// "What is X?": taxonomic or definition queries.
    Definition,
    /// "What do I need for X?": prerequisite queries.
    Requirements,
    /// "Tell me about X": general association.
    Association,
    /// "Why does X happen?": causal reasoning.
    Causation,
    /// "What does X contain?": composition.
    Composition,
    /// "What is X part of?": membership queries.
    Membership,
    /// "What's like X?": similarity search.
    Similarity,
    /// "What's different from X?": contrast.
    Contrast,
    /// "What can X do?": capability.
    Capability,
    /// "What conflicts with X?": incompatibility.
    Conflict,
    /// Complex multi-hop reasoning query.
    MultiHop,
}

impl QueryIntent {
    /// The canonical relation name of an intent.
    pub open spec fn relation_name_spec(self) -> Seq<char> {
        match self {
            QueryIntent::Definition => "IsA"@,
            QueryIntent::Requirements => "Requires"@,
            QueryIntent::Association => "RelatedTo"@,
            QueryIntent::Causation => "Causes"@,
            QueryIntent::Composition => "Contains"@,
            QueryIntent::Membership => "PartOf"@,
            QueryIntent::Similarity => "SimilarTo"@,
            QueryIntent::Contrast => "OppositeOf"@,
            QueryIntent::Capability => "Enables"@,
            QueryIntent::Conflict => "ConflictsWith"@,
            QueryIntent::MultiHop => "RelatedTo"@,
        }
    }

    /// Canonical relation name for this intent (looked up in the graph's vocabulary).
    pub fn relation_name(&self) -> (r: &'static str)
        ensures
            r@ == self.relation_name_spec(),
    {
        match self {
            QueryIntent::Definition => "IsA",
            QueryIntent::Requirements => "Requires",
            QueryIntent::Association => "RelatedTo",
            QueryIntent::Causation => "Causes",
            QueryIntent::Composition => "Contains",
            QueryIntent::Membership => "PartOf",
            QueryIntent::Similarity => "SimilarTo",
            QueryIntent::Contrast => "OppositeOf",
            QueryIntent::Capability => "Enables",
            QueryIntent::Conflict => "ConflictsWith",
            QueryIntent::MultiHop => "RelatedTo",
        }
    }
}

/// The texts of a keyword list.
pub open spec fn kw_view(v: Seq<&'static str>) -> Seq<Seq<char>> {
    v.map_values(|s: &'static str| s@)
}

/// Some keyword of `kws` occurs in `text`.
pub open spec fn matches_any(text: Seq<char>, kws: Seq<Seq<char>>) -> bool {
    exists|k: int| 0 <= k < kws.len() && contains_seq(text, #[trigger] kws[k])
}

/// Keywords of definition queries.
pub open spec fn definition_keywords() -> Seq<Seq<char>> {
    seq![
        "what is"@, "what are"@, "define"@, "definition"@, "meaning of"@, "explain what"@,
        "describe what"@, "who is"@, "who are"@,
    ]
}

/// Keywords of causal queries.
pub open spec fn causal_keywords() -> Seq<Seq<char>> {
    seq![
        "why"@, "cause"@, "causes"@, "caused by"@, "reason"@, "because"@, "leads to"@,
        "results in"@, "effect of"@, "consequence"@,
    ]
}

/// Keywords of requirement queries.
pub open spec fn requirement_keywords() -> Seq<Seq<char>> {
    seq![
        "need"@, "needs"@, "require"@, "requires"@, "required"@, "prerequisite"@,
        "dependency"@, "dependencies"@, "how to"@, "steps to"@,
    ]
}

/// Keywords of similarity queries.
pub open spec fn similarity_keywords() -> Seq<Seq<char>> {
    seq![
        "similar"@, "like"@, "resembles"@, "analogous"@, "comparable"@, "related to"@,
        "alternatives"@, "other options"@,
    ]
}

/// Keywords of composition queries.
pub open spec fn composition_keywords() -> Seq<Seq<char>> {
    seq![
        "contains"@, "inside"@, "within"@, "components"@, "parts of"@, "made of"@,
        "consists of"@, "includes"@, "has"@,
    ]
}

/// Keywords of membership queries.
pub open spec fn membership_keywords() -> Seq<Seq<char>> {
    seq![
        "part of"@, "belongs to"@, "member of"@, "category"@, "type of"@, "classified as"@,
        "falls under"@, "included in"@,
    ]
}

/// Keywords of capability queries.
pub open spec fn capability_keywords() -> Seq<Seq<char>> {
    seq![
        "can"@, "able to"@, "capable of"@, "enables"@, "allows"@, "makes possible"@,
        "supports"@, "provides"@,
    ]
}

/// Keywords of conflict queries.
pub open spec fn conflict_keywords() -> Seq<Seq<char>> {
    seq![
        "conflict"@, "incompatible"@, "contradiction"@, "clash"@, "mutually exclusive"@,
        "cannot"@, "prevents"@,
    ]
}

/// Keywords of contrast queries.
pub open spec fn contrast_keywords() -> Seq<Seq<char>> {
    seq![
        "opposite"@, "different from"@, "contrast"@, "versus"@, "vs"@, "distinction"@,
        "difference between"@, "unlike"@,
    ]
}

/// Intent classifier for natural-language queries.
pub struct IntentClassifier {
    definition_keywords: Vec<&'static str>,
    causal_keywords: Vec<&'static str>,
    requirement_keywords: Vec<&'static str>,
    similarity_keywords: Vec<&'static str>,
    composition_keywords: Vec<&'static str>,
    membership_keywords: Vec<&'static str>,
    capability_keywords: Vec<&'static str>,
    conflict_keywords: Vec<&'static str>,
    contrast_keywords: Vec<&'static str>,
}

/// The intents that have keyword lists, in the order `classify` tries them.
pub open spec fn intent_order() -> Seq<QueryIntent> {
    seq![
        QueryIntent::Definition,
        QueryIntent::Causation,
        QueryIntent::Requirements,
        QueryIntent::Conflict,
        QueryIntent::Contrast,
        QueryIntent::Composition,
        QueryIntent::Membership,
        QueryIntent::Capability,
        QueryIntent::Similarity,
    ]
}

impl IntentClassifier {
    /// The keyword texts that indicate `intent` (none for the intents without a list).
    pub closed spec fn keywords(self, intent: QueryIntent) -> Seq<Seq<char>> {
        match intent {
            QueryIntent::Definition => kw_view(self.definition_keywords@),
            QueryIntent::Causation => kw_view(self.causal_keywords@),
            QueryIntent::Requirements => kw_view(self.requirement_keywords@),
            QueryIntent::Similarity => kw_view(self.similarity_keywords@),
            QueryIntent::Composition => kw_view(self.composition_keywords@),
            QueryIntent::Membership => kw_view(self.membership_keywords@),
            QueryIntent::Capability => kw_view(self.capability_keywords@),
            QueryIntent::Conflict => kw_view(self.conflict_keywords@),
            QueryIntent::Contrast => kw_view(self.contrast_keywords@),
            _ => Seq::empty(),
        }
    }

    /// The classification of an already lower-cased text: the first intent in
    /// `intent_order()` one of whose keywords occurs in it, else `Association`.
    pub open spec fn classify_spec(self, text: Seq<char>) -> QueryIntent {
        if matches_any(text, self.keywords(QueryIntent::Definition)) {
            QueryIntent::Definition
        } else if matches_any(text, self.keywords(QueryIntent::Causation)) {
            QueryIntent::Causation
        } else if matches_any(text, self.keywords(QueryIntent::Requirements)) {
            QueryIntent::Requirements
        } else if matches_any(text, self.keywords(QueryIntent::Conflict)) {
            QueryIntent::Conflict
        } else if matches_any(text, self.keywords(QueryIntent::Contrast)) {
            QueryIntent::Contrast
        } else if matches_any(text, self.keywords(QueryIntent::Composition)) {
            QueryIntent::Composition
        } else if matches_any(text, self.keywords(QueryIntent::Membership)) {
            QueryIntent::Membership
        } else if matches_any(text, self.keywords(QueryIntent::Capability)) {
            QueryIntent::Capability
        } else if matches_any(text, self.keywords(QueryIntent::Similarity)) {
            QueryIntent::Similarity
        } else {
            QueryIntent::Association
        }
    }

    /// Intents are tried in the fixed order of `intent_order()`: the result is
    /// the first intent of that order one of whose keywords occurs in the text,
    /// and `Association` when none does. In particular a causal keyword wins
    /// over every requirement keyword unless a definition keyword occurs too.
    pub proof fn lemma_classify_first_match(self, text: Seq<char>)
        ensures
            forall|i: int|
                0 <= i < intent_order().len() && matches_any(text, self.keywords(#[trigger] intent_order()[i]))
                    && (forall|j: int| 0 <= j < i ==> !matches_any(text, self.keywords(intent_order()[j])))
                    ==> self.classify_spec(text) == intent_order()[i],
            (forall|j: int| 0 <= j < intent_order().len() ==> !matches_any(text, self.keywords(#[trigger] intent_order()[j])))
                ==> self.classify_spec(text) == QueryIntent::Association,
            matches_any(text, self.keywords(QueryIntent::Causation)) && !matches_any(
                text,
                self.keywords(QueryIntent::Definition),
            ) ==> self.classify_spec(text) == QueryIntent::Causation,
    {
        let o = intent_order();
        assert(o[0] == QueryIntent::Definition);
        assert(o[1] == QueryIntent::Causation);
        assert(o[2] == QueryIntent::Requirements);
        assert(o[3] == QueryIntent::Conflict);
        assert(o[4] == QueryIntent::Contrast);
        assert(o[5] == QueryIntent::Composition);
        assert(o[6] == QueryIntent::Membership);
        assert(o[7] == QueryIntent::Capability);
        assert(o[8] == QueryIntent::Similarity);
        assert(o.len() == 9);
    }

    /// The classifier with the built-in keyword lists.
    pub fn new() -> (r: Self)
        ensures
            r.keywords(QueryIntent::Definition) == definition_keywords(),
            r.keywords(QueryIntent::Causation) == causal_keywords(),
            r.keywords(QueryIntent::Requirements) == requirement_keywords(),
            r.keywords(QueryIntent::Similarity) == similarity_keywords(),
            r.keywords(QueryIntent::Composition) == composition_keywords(),
            r.keywords(QueryIntent::Membership) == membership_keywords(),
            r.keywords(QueryIntent::Capability) == capability_keywords(),
            r.keywords(QueryIntent::Conflict) == conflict_keywords(),
            r.keywords(QueryIntent::Contrast) == contrast_keywords(),
            r.keywords(QueryIntent::Association) == Seq::<Seq<char>>::empty(),
            r.keywords(QueryIntent::MultiHop) == Seq::<Seq<char>>::empty(),
    {
        let r = IntentClassifier {
            definition_keywords: vec![
                "what is",
                "what are",
                "define",
                "definition",
                "meaning of",
                "explain what",
                "describe what",
                "who is",
                "who are",
            ],
            causal_keywords: vec![
                "why",
                "cause",
                "causes",
                "caused by",
                "reason",
                "because",
                "leads to",
                "results in",
                "effect of",
                "consequence",
            ],
            requirement_keywords: vec![
                "need",
                "needs",
                "require",
                "requires",
                "required",
                "prerequisite",
                "dependency",
                "dependencies",
                "how to",
                "steps to",
            ],
            similarity_keywords: vec![
                "similar",
                "like",
                "resembles",
                "analogous",
                "comparable",
                "related to",
                "alternatives",
                "other options",
            ],
            composition_keywords: vec![
                "contains",
                "inside",
                "within",
                "components",
                "parts of",
                "made of",
                "consists of",
                "includes",
                "has",
            ],
            membership_keywords: vec![
                "part of",
                "belongs to",
                "member of",
                "category",
                "type of",
                "classified as",
                "falls under",
                "included in",
            ],
            capability_keywords: vec![
                "can",
                "able to",
                "capable of",
                "enables",
                "allows",
                "makes possible",
                "supports",
                "provides",
            ],
            conflict_keywords: vec![
                "conflict",
                "incompatible",
                "contradiction",
                "clash",
                "mutually exclusive",
                "cannot",
                "prevents",
            ],
            contrast_keywords: vec![
                "opposite",
                "different from",
                "contrast",
                "versus",
                "vs",
                "distinction",
                "difference between",
                "unlike",
            ],
        };
        proof {
            assert(kw_view(r.definition_keywords@) =~= definition_keywords());
            assert(kw_view(r.causal_keywords@) =~= causal_keywords());
            assert(kw_view(r.requirement_keywords@) =~= requirement_keywords());
            assert(kw_view(r.similarity_keywords@) =~= similarity_keywords());
            assert(kw_view(r.composition_keywords@) =~= composition_keywords());
            assert(kw_view(r.membership_keywords@) =~= membership_keywords());
            assert(kw_view(r.capability_keywords@) =~= capability_keywords());
            assert(kw_view(r.conflict_keywords@) =~= conflict_keywords());
            assert(kw_view(r.contrast_keywords@) =~= contrast_keywords());
        }
        r
    }

    /// Whether some keyword of `keywords` occurs in `query`.
    fn matches_keywords(&self, query: &[char], keywords: &Vec<&'static str>) -> (r: bool)
        ensures
            r == matches_any(query@, kw_view(keywords@)),
    {
        let mut i: usize = 0;
        while i < keywords.len()
            invariant
                i <= keywords@.len(),
                forall|k: int| 0 <= k < i ==> !contains_seq(query@, #[trigger] kw_view(keywords@)[k]),
            decreases keywords@.len() - i,
        {
            let kw = chars_of(keywords[i]);
            if contains_chars(query, kw.as_slice()) {
                proof {
                    assert(kw_view(keywords@)[i as int] == kw@);
                }
                return true;
            }
            proof {
                assert(kw_view(keywords@)[i as int] == kw@);
            }
            i = i + 1;
        }
        false
    }

    /// Classifies an already lower-cased query: the first intent, in order of
    /// specificity, one of whose keywords occurs in it; `Association` when none does.
    pub fn classify_lowered(&self, query_lower: &str) -> (r: QueryIntent)
        ensures
            r == self.classify_spec(query_lower@),
    {
        let q = chars_of(query_lower);
        let t = q.as_slice();
        if self.matches_keywords(t, &self.definition_keywords) {
            return QueryIntent::Definition;
        }
        if self.matches_keywords(t, &self.causal_keywords) {
            return QueryIntent::Causation;
        }
        if self.matches_keywords(t, &self.requirement_keywords) {
            return QueryIntent::Requirements;
        }
        if self.matches_keywords(t, &self.conflict_keywords) {
            return QueryIntent::Conflict;
        }
        if self.matches_keywords(t, &self.contrast_keywords) {
            return QueryIntent::Contrast;
        }
        if self.matches_keywords(t, &self.composition_keywords) {
            return QueryIntent::Composition;
        }
        if self.matches_keywords(t, &self.membership_keywords) {
            return QueryIntent::Membership;
        }
        if self.matches_keywords(t, &self.capability_keywords) {
            return QueryIntent::Capability;
        }
        if self.matches_keywords(t, &self.similarity_keywords) {
            return QueryIntent::Similarity;
        }
        QueryIntent::Association
    }

    /// Classifies a query's intent by keyword matching on its lower-case form.
    pub fn classify(&self, query: &str) -> (r: QueryIntent)
        ensures
            r == self.classify_spec(lowercase(query@)),
    {
        let lower = to_lowercase(query);
        self.classify_lowered(lower.as_str())
    }
}

/// Number of keywords of `kws` that occur in `text`.
pub open spec fn count_matching(text: Seq<char>, kws: Seq<Seq<char>>) -> nat
    decreases kws.len(),
{
    if kws.len() == 0 {
        0
    } else {
        count_matching(text, kws.drop_last()) + if contains_seq(text, kws.last()) {
            1nat
        } else {
            0nat
        }
    }
}

impl IntentClassifier {
    /// Match counts of the intents of `intent_order()` on a lower-cased text.
    pub open spec fn scores(self, text: Seq<char>) -> Seq<nat> {
        Seq::new(9, |i: int| count_matching(text, self.keywords(intent_order()[i])))
    }

    /// Number of keywords of `keywords` that occur in `query`.
    fn count_matches(&self, query: &[char], keywords: &Vec<&'static str>) -> (r: usize)
        ensures
            r == count_matching(query@, kw_view(keywords@)),
    {
        let mut count: usize = 0;
        let mut i: usize = 0;
        while i < keywords.len()
            invariant
                i <= keywords@.len(),
                count == count_matching(query@, kw_view(keywords@).subrange(0, i as int)),
                count <= i,
            decreases keywords@.len() - i,
        {
            let kw = chars_of(keywords[i]);
            let hit = contains_chars(query, kw.as_slice());
            proof {
                let kv = kw_view(keywords@);
                assert(kv[i as int] == kw@);
                assert(kv.subrange(0, i + 1).drop_last() =~= kv.subrange(0, i as int));
                assert(kv.subrange(0, i + 1).last() == kv[i as int]);
            }
            if hit {
                count = count + 1;
            }
            i = i + 1;
        }
        proof {
            assert(kw_view(keywords@).subrange(0, i as int) =~= kw_view(keywords@));
        }
        count
    }

    /// The keyword list of the `i`-th intent of `intent_order()`.
    fn list_at(&self, i: usize) -> (r: &Vec<&'static str>)
        requires
            i < 9,
        ensures
            kw_view(r@) == self.keywords(intent_order()[i as int]),
    {
        match i {
            0 => &self.definition_keywords,
            1 => &self.causal_keywords,
            2 => &self.requirement_keywords,
            3 => &self.conflict_keywords,
            4 => &self.contrast_keywords,
            5 => &self.composition_keywords,
            6 => &self.membership_keywords,
            7 => &self.capability_keywords,
            _ => &self.similarity_keywords,
        }
    }

    /// The intent with the most keyword matches in an already lower-cased
    /// query, with that number of matches. Among intents with equally many
    /// matches the one latest in `intent_order()` wins; with no match at all
    /// the result is `(Association, 0)`.
    pub fn best_by_count(&self, query_lower: &str) -> (r: (QueryIntent, usize))
        ensures
            forall|i: int| 0 <= i < 9 ==> #[trigger] self.scores(query_lower@)[i] <= r.1,
            r.1 == 0 ==> r.0 == QueryIntent::Association,
            r.1 > 0 ==> exists|i: int|
                0 <= i < 9 && #[trigger] self.scores(query_lower@)[i] == r.1 && r.0
                    == intent_order()[i] && forall|j: int|
                    i < j < 9 ==> #[trigger] self.scores(query_lower@)[j] < r.1,
    {
        let q = chars_of(query_lower);
        let t = q.as_slice();
        let ghost sc = self.scores(query_lower@);
        let mut best: usize = 0;
        let mut best_count: usize = 0;
        let mut i: usize = 0;
        while i < 9
            invariant
                sc == self.scores(query_lower@),
                t@ == query_lower@,
                i <= 9,
                best < 9,
                forall|k: int| 0 <= k < i ==> sc[k] <= best_count,
                best_count > 0 ==> best < i && sc[best as int] == best_count && forall|j: int|
                    best < j < i ==> sc[j] < best_count,
                best_count == 0 ==> best == 0,
            decreases 9 - i,
        {
            let c = self.count_matches(t, self.list_at(i));
            if c > 0 && c >= best_count {
                best = i;
                best_count = c;
            }
            i = i + 1;
        }
        if best_count == 0 {
            return (QueryIntent::Association, 0);
        }
        let intent = match best {
            0 => QueryIntent::Definition,
            1 => QueryIntent::Causation,
            2 => QueryIntent::Requirements,
            3 => QueryIntent::Conflict,
            4 => QueryIntent::Contrast,
            5 => QueryIntent::Composition,
            6 => QueryIntent::Membership,
            7 => QueryIntent::Capability,
            _ => QueryIntent::Similarity,
        };
        proof {
            assert(intent == intent_order()[best as int]);
        }
        (intent, best_count)
    }
}

impl Default for IntentClassifier {
    fn default() -> (r: Self)
        ensures
            r.keywords(QueryIntent::Definition) == definition_keywords(),
            r.keywords(QueryIntent::Causation) == causal_keywords(),
            r.keywords(QueryIntent::Requirements) == requirement_keywords(),
            r.keywords(QueryIntent::Similarity) == similarity_keywords(),
            r.keywords(QueryIntent::Composition) == composition_keywords(),
            r.keywords(QueryIntent::Membership) == membership_keywords(),
            r.keywords(QueryIntent::Capability) == capability_keywords(),
            r.keywords(QueryIntent::Conflict) == conflict_keywords(),
            r.keywords(QueryIntent::Contrast) == contrast_keywords(),
    {
        Self::new()
    }
}

} // verus!
