//! Data-driven relation vocabulary and similarity matrix.
//!
//! Similarities are `f32` values in `[0, 1]`, held as their bit patterns.

use vstd::prelude::*;
use crate::graph::{RelationId, ONE_BITS};
use crate::messages::{decimal, fmt_three_usize, fmt_usize_between};
use crate::text::str_eq;

verus! {

/// Errors of relation vocabularies.
#[derive(Debug)]
pub enum RelationVocabError {
    /// The similarity matrix does not have `n * n` entries.
    BadShape { n: usize, expected: usize, got: usize },
}

impl RelationVocabError {
    /// The message this error displays as.
    pub fn to_message(&self) -> (r: String)
        ensures
            r@ == self.message(),
    {
        match self {
            RelationVocabError::BadShape { n, expected, got } => {
                let mut m = fmt_three_usize(
                    "similarity matrix must be ",
                    *expected,
                    " entries (",
                    *n,
                    "x",
                    *n,
                );
                m.append(fmt_usize_between("), got ", *got, "").as_str());
                proof {
                    reveal_strlit("");
                    assert(m@ =~= self.message());
                }
                m
            },
        }
    }

    /// The text of the message.
    pub open spec fn message(self) -> Seq<char> {
        match self {
            RelationVocabError::BadShape { n, expected, got } => "similarity matrix must be "@ + decimal(
                expected as nat,
            ) + " entries ("@ + decimal(n as nat) + "x"@ + decimal(n as nat) + "), got "@ + decimal(got as nat),
        }
    }
}

/// A relation vocabulary with a similarity matrix (row-major, `n x n`).
#[derive(Debug, Clone)]
pub struct RelationVocab {
    names: Vec<String>,
    similarity: Vec<u32>,
}

impl RelationVocab {
    /// Relation names, index == `RelationId`.
    pub closed spec fn names_view(self) -> Seq<Seq<char>> {
        self.names@.map_values(|s: String| s@)
    }

    /// The row-major similarity matrix, as `f32` bit patterns.
    pub closed spec fn matrix_view(self) -> Seq<u32> {
        self.similarity@
    }

    /// The matrix has `n * n` entries for `n` relations (every constructor
    /// establishes this).
    pub open spec fn wf(self) -> bool {
        self.matrix_view().len() == self.names_view().len() * self.names_view().len()
    }

    /// The similarity of relations `a` and `b`: the matrix entry, or the bits of
    /// 0.0 when either id is out of range.
    pub open spec fn similarity_spec(self, a: int, b: int) -> u32 {
        let n = self.names_view().len();
        if 0 <= a < n && 0 <= b < n && a * n + b < self.matrix_view().len() {
            self.matrix_view()[a * n + b]
        } else {
            0u32
        }
    }

    /// A vocabulary from names and a row-major `n x n` similarity matrix.
    pub fn new(names: Vec<String>, similarity: Vec<u32>) -> (r: Result<Self, RelationVocabError>)
        requires
            names@.len() * names@.len() <= usize::MAX,
        ensures
            similarity@.len() == names@.len() * names@.len() <==> r is Ok,
            r matches Ok(v) ==> v.names_view() == names@.map_values(|s: String| s@)
                && v.matrix_view() == similarity@ && v.wf(),
            r matches Err(RelationVocabError::BadShape { n, expected, got }) ==> n == names@.len()
                && expected == names@.len() * names@.len() && got == similarity@.len(),
    {
        let n = names.len();
        let expected = n * n;
        if similarity.len() != expected {
            return Err(RelationVocabError::BadShape { n, expected, got: similarity.len() });
        }
        Ok(RelationVocab { names, similarity })
    }

    /// All-ones similarity with caller-supplied names.
    pub fn with_names_uniform(names: Vec<String>) -> (r: Self)
        requires
            names@.len() * names@.len() <= usize::MAX,
        ensures
            r.wf(),
            r.names_view() == names@.map_values(|s: String| s@),
            r.matrix_view().len() == names@.len() * names@.len(),
            forall|i: int| 0 <= i < r.matrix_view().len() ==> #[trigger] r.matrix_view()[i] == ONE_BITS,
    {
        let n = names.len();
        let similarity: Vec<u32> = vec![ONE_BITS; n * n];
        RelationVocab { names, similarity }
    }

    /// All-ones similarity (refraction disabled); the names are `r0 .. r{n-1}`.
    pub fn uniform(n: usize) -> (r: Self)
        requires
            n * n <= usize::MAX,
        ensures
            r.wf(),
            r.names_view().len() == n,
            r.matrix_view().len() == n * n,
            forall|i: int| 0 <= i < r.matrix_view().len() ==> #[trigger] r.matrix_view()[i] == ONE_BITS,
    {
        let mut names: Vec<String> = Vec::new();
        let mut i: usize = 0;
        while i < n
            invariant
                i <= n,
                names@.len() == i,
            decreases n - i,
        {
            names.push(fmt_usize_between("r", i, ""));
            i = i + 1;
        }
        let similarity: Vec<u32> = vec![ONE_BITS; n * n];
        RelationVocab { names, similarity }
    }

    /// Number of relations.
    pub fn len(&self) -> (r: usize)
        ensures
            r == self.names_view().len(),
    {
        self.names.len()
    }

    /// Whether the vocabulary has no relation.
    pub fn is_empty(&self) -> (r: bool)
        ensures
            r == (self.names_view().len() == 0),
    {
        self.names.len() == 0
    }

    /// The name of relation `id`, if it exists.
    pub fn name(&self, id: RelationId) -> (r: Option<&str>)
        ensures
            (id < self.names_view().len()) == r is Some,
            r matches Some(s) ==> s@ == self.names_view()[id as int],
    {
        let i = id as usize;
        if i < self.names.len() {
            Some(self.names[i].as_str())
        } else {
            None
        }
    }

    /// The id of the first relation named `name`, if any.
    pub fn id_of(&self, name: &str) -> (r: Option<RelationId>)
        ensures
            r is None <==> forall|k: int| 0 <= k < self.names_view().len() ==> #[trigger] self.names_view()[k] != name@,
            r matches Some(id) ==> exists|k: int|
                0 <= k < self.names_view().len() && #[trigger] self.names_view()[k] == name@ && id == k as RelationId
                    && forall|j: int| 0 <= j < k ==> #[trigger] self.names_view()[j] != name@,
    {
        let ghost nv = self.names_view();
        let mut i: usize = 0;
        while i < self.names.len()
            invariant
                nv == self.names_view(),
                nv.len() == self.names@.len(),
                i <= nv.len(),
                forall|j: int| 0 <= j < i ==> #[trigger] nv[j] != name@,
            decreases nv.len() - i,
        {
            if str_eq(self.names[i].as_str(), name) {
                proof {
                    assert(nv[i as int] == name@);
                }
                return Some(i as RelationId);
            }
            i = i + 1;
        }
        None
    }

    /// Similarity of two relations (an `f32` in `[0, 1]`, as bits); the bits of
    /// 0.0 for out-of-range ids.
    pub fn similarity_bits(&self, a: RelationId, b: RelationId) -> (r: u32)
        ensures
            r == self.similarity_spec(a as int, b as int),
    {
        let n = self.names.len();
        let ai = a as usize;
        let bi = b as usize;
        if ai >= n || bi >= n {
            return 0;
        }
        let sl = self.similarity.len();
        proof {
            assert(self.names_view().len() == n);
        }
        match ai.checked_mul(n) {
            Some(row) => {
                assert(row == a as int * n as int);
                if row < self.similarity.len() && bi < self.similarity.len() - row {
                        self.similarity[row + bi]
                } else {
                    0
                }
            },
            None => {
                assert(a as int * n as int > usize::MAX);
                assert(self.similarity_spec(a as int, b as int) == 0);
                0
            },
        }
    }

    /// Relation names, index == `RelationId`.
    pub fn names(&self) -> (r: &[String])
        ensures
            r@.map_values(|s: String| s@) == self.names_view(),
    {
        self.names.as_slice()
    }

    /// The flat row-major `n * n` similarity matrix, as bits.
    pub fn matrix(&self) -> (r: &[u32])
        ensures
            r@ == self.matrix_view(),
    {
        self.similarity.as_slice()
    }
}

} // verus!
