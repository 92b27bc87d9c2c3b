//! Relationship properties of the angle-bin model, their angle bins and
//! similarities, and angular distance between bins.
//!
//! Similarities are `f32` values in `[0, 1]`, held as their bit patterns.

use vstd::prelude::*;
use crate::graph::{AngleBin, N_ANGLE_BINS};

verus! {

/// Semantic relationship properties that define node directionality.
#[derive(Debug, Clone, Copy, PartialEq, Eq, Hash, Structural)]
pub enum RelationshipProperty {
    /// "is-a" (hyponymy).
    IsA,
    /// "related-to" (general association).
    RelatedTo,
    /// "causes" (causation).
    Causes,
    /// "contains" (meronymy).
    Contains,
    /// "part-of" (reverse meronymy).
    PartOf,
    /// "similar-to" (synonymy).
    SimilarTo,
    /// "opposite-of" (antonymy).
    OppositeOf,
    /// "enables".
    Enables,
    /// "requires".
    Requires,
    /// "conflicts-with".
    ConflictsWith,
}

/// Bit pattern of the `f32` value 1.0.
pub const SIM_ONE: u32 = 0x3f80_0000;

/// Bit pattern of the `f32` value 0.8.
pub const SIM_0_8: u32 = 0x3f4c_cccd;

/// Bit pattern of the `f32` value 0.7.
pub const SIM_0_7: u32 = 0x3f33_3333;

/// Bit pattern of the `f32` value 0.6.
pub const SIM_0_6: u32 = 0x3f19_999a;

/// Bit pattern of the `f32` value 0.5.
pub const SIM_0_5: u32 = 0x3f00_0000;

/// Bit pattern of the `f32` value 0.3.
pub const SIM_0_3: u32 = 0x3e99_999a;

/// Bit pattern of the `f32` value 0.2.
pub const SIM_0_2: u32 = 0x3e4c_cccd;

/// Bit pattern of the `f32` value 0.1.
pub const SIM_0_1: u32 = 0x3dcc_cccd;

impl RelationshipProperty {
    /// The index of a property (its position in declaration order).
    pub open spec fn index(self) -> nat {
        match self {
            RelationshipProperty::IsA => 0,
            RelationshipProperty::RelatedTo => 1,
            RelationshipProperty::Causes => 2,
            RelationshipProperty::Contains => 3,
            RelationshipProperty::PartOf => 4,
            RelationshipProperty::SimilarTo => 5,
            RelationshipProperty::OppositeOf => 6,
            RelationshipProperty::Enables => 7,
            RelationshipProperty::Requires => 8,
            RelationshipProperty::ConflictsWith => 9,
        }
    }

    /// The number of relationship properties.
    pub fn count() -> (r: usize)
        ensures
            r == 10,
    {
        10
    }

    /// The index of this property, for table lookups.
    pub fn as_usize(self) -> (r: usize)
        ensures
            r == self.index(),
    {
        match self {
            RelationshipProperty::IsA => 0,
            RelationshipProperty::RelatedTo => 1,
            RelationshipProperty::Causes => 2,
            RelationshipProperty::Contains => 3,
            RelationshipProperty::PartOf => 4,
            RelationshipProperty::SimilarTo => 5,
            RelationshipProperty::OppositeOf => 6,
            RelationshipProperty::Enables => 7,
            RelationshipProperty::Requires => 8,
            RelationshipProperty::ConflictsWith => 9,
        }
    }
}

/// The primary angle bin of the property with index `i` (properties spread over
/// the 16 bins).
pub open spec fn default_bin(i: nat) -> AngleBin {
    if i == 0 {
        0
    } else if i == 1 {
        2
    } else if i == 2 {
        4
    } else if i == 3 {
        6
    } else if i == 4 {
        8
    } else if i == 5 {
        10
    } else if i == 6 {
        12
    } else if i == 7 {
        14
    } else if i == 8 {
        1
    } else {
        15
    }
}

/// The pair of property indices is `{a, b}` in either order.
pub open spec fn pair_is(i: nat, j: nat, a: nat, b: nat) -> bool {
    (i == a && j == b) || (i == b && j == a)
}

/// The default similarity of the properties with indices `i` and `j` (as
/// bits): 1.0 for a property with itself, the listed values for related and
/// opposed pairs, 0.3 for every other pair.
pub open spec fn default_similarity(i: nat, j: nat) -> u32 {
    if i == j {
        SIM_ONE
    } else if pair_is(i, j, 0, 4) || pair_is(i, j, 1, 5) {
        SIM_0_7
    } else if pair_is(i, j, 3, 4) {
        SIM_0_8
    } else if pair_is(i, j, 2, 7) {
        SIM_0_6
    } else if pair_is(i, j, 8, 7) {
        SIM_0_5
    } else if pair_is(i, j, 0, 6) {
        SIM_0_1
    } else if pair_is(i, j, 2, 9) || pair_is(i, j, 7, 9) {
        SIM_0_2
    } else {
        SIM_0_3
    }
}

/// The default similarity of two property indices below 10.
fn default_similarity_at(i: usize, j: usize) -> (r: u32)
    ensures
        r == default_similarity(i as nat, j as nat),
{
    if i == j {
        SIM_ONE
    } else if (i == 0 && j == 4) || (i == 4 && j == 0) || (i == 1 && j == 5) || (i == 5 && j == 1) {
        SIM_0_7
    } else if (i == 3 && j == 4) || (i == 4 && j == 3) {
        SIM_0_8
    } else if (i == 2 && j == 7) || (i == 7 && j == 2) {
        SIM_0_6
    } else if (i == 8 && j == 7) || (i == 7 && j == 8) {
        SIM_0_5
    } else if (i == 0 && j == 6) || (i == 6 && j == 0) {
        SIM_0_1
    } else if (i == 2 && j == 9) || (i == 9 && j == 2) || (i == 7 && j == 9) || (i == 9 && j == 7) {
        SIM_0_2
    } else {
        SIM_0_3
    }
}

/// Distance between two angle bins on a circle of `num_bins` bins: the smaller
/// of the two ways round, computed on mathematical integers and truncated to
/// `u8`.
pub open spec fn angular_distance_spec(b1: AngleBin, b2: AngleBin, num_bins: int) -> u8 {
    let diff = if b1 >= b2 {
        b1 - b2
    } else {
        b2 - b1
    };
    let wrapped = num_bins - diff;
    (if diff <= wrapped {
        diff
    } else {
        wrapped
    }) as u8
}

/// Angular distance between two bins on a circle of `num_bins` bins: the
/// smaller of `|b1 - b2|` and `num_bins - |b1 - b2|`, as a `u8`.
pub fn angular_distance(b1: AngleBin, b2: AngleBin, num_bins: usize) -> (r: u8)
    ensures
        r == angular_distance_spec(b1, b2, num_bins as int),
        b1 < num_bins && b2 < num_bins ==> {
            let d: int = if b1 >= b2 { b1 - b2 } else { b2 - b1 };
            &&& r <= d
            &&& r <= num_bins - d
            &&& (r == d || r == num_bins - d)
        },
{
    proof {
        lemma_angular_distance_is_shorter_way(b1, b2, num_bins as int);
    }
    let x1 = b1 as i128;
    let x2 = b2 as i128;
    let b = num_bins as i128;
    let diff = if x1 >= x2 {
        x1 - x2
    } else {
        x2 - x1
    };
    let wrapped = b - diff;
    let m = if diff <= wrapped {
        diff
    } else {
        wrapped
    };
    #[verifier::truncate]
    (m as u8)
}

/// Angular distance is symmetric, zero from a bin to itself, and, between
/// bins of the circle, at most half the circle and zero only between equal
/// bins.
pub proof fn lemma_angular_distance(b1: AngleBin, b2: AngleBin, num_bins: int)
    requires
        0 <= num_bins,
    ensures
        angular_distance_spec(b1, b2, num_bins) == angular_distance_spec(b2, b1, num_bins),
        angular_distance_spec(b1, b1, num_bins) == 0,
        b1 < num_bins && b2 < num_bins ==> 2 * angular_distance_spec(b1, b2, num_bins) <= num_bins,
        b1 < num_bins && b2 < num_bins ==> (angular_distance_spec(b1, b2, num_bins) == 0 <==> b1 == b2),
{
    let d: int = if b1 >= b2 { b1 - b2 } else { b2 - b1 };
    let m: int = if d <= num_bins - d { d } else { num_bins - d };
    if b1 < num_bins && b2 < num_bins {
        assert(0 <= m <= 255);
        assert(m as u8 == m);
    }
    assert(0u8 as int == 0);
}

/// Angular distance is the shorter way round the circle: for bins of the
/// circle, with `d = |b1 - b2|`, the distance is at most `d` and at most
/// `num_bins - d`, and it is one of the two.
pub proof fn lemma_angular_distance_is_shorter_way(b1: AngleBin, b2: AngleBin, num_bins: int)
    ensures
        b1 < num_bins && b2 < num_bins ==> {
            let d: int = if b1 >= b2 { b1 - b2 } else { b2 - b1 };
            let r = angular_distance_spec(b1, b2, num_bins) as int;
            &&& r <= d
            &&& r <= num_bins - d
            &&& (r == d || r == num_bins - d)
        },
{
    if b1 < num_bins && b2 < num_bins {
        let d: int = if b1 >= b2 { b1 - b2 } else { b2 - b1 };
        assert(0 <= d <= 255);
        assert(0 <= num_bins - d);
        if d <= num_bins - d {
            assert(d as u8 == d);
        } else {
            assert((num_bins - d) as u8 == num_bins - d);
        }
    }
}

/// The listed pairs of the default similarity table, with their values:
/// IsA/PartOf 0.7, RelatedTo/SimilarTo 0.7, Contains/PartOf 0.8,
/// Causes/Enables 0.6, Requires/Enables 0.5, IsA/OppositeOf 0.1,
/// Causes/ConflictsWith 0.2 and Enables/ConflictsWith 0.2 (in either order);
/// every property has similarity 1.0 with itself and every other pair 0.3.
pub proof fn lemma_default_similarity_table(i: nat, j: nat)
    requires
        i < 10,
        j < 10,
    ensures
        default_similarity(0, 4) == 0x3f33_3333u32 && default_similarity(4, 0) == 0x3f33_3333u32,
        default_similarity(1, 5) == 0x3f33_3333u32 && default_similarity(5, 1) == 0x3f33_3333u32,
        default_similarity(3, 4) == 0x3f4c_cccdu32 && default_similarity(4, 3) == 0x3f4c_cccdu32,
        default_similarity(2, 7) == 0x3f19_999au32 && default_similarity(7, 2) == 0x3f19_999au32,
        default_similarity(8, 7) == 0x3f00_0000u32 && default_similarity(7, 8) == 0x3f00_0000u32,
        default_similarity(0, 6) == 0x3dcc_cccdu32 && default_similarity(6, 0) == 0x3dcc_cccdu32,
        default_similarity(2, 9) == 0x3e4c_cccdu32 && default_similarity(9, 2) == 0x3e4c_cccdu32,
        default_similarity(7, 9) == 0x3e4c_cccdu32 && default_similarity(9, 7) == 0x3e4c_cccdu32,
        i == j ==> default_similarity(i, j) == 0x3f80_0000u32,
        i != j && !(set![(0nat, 4nat), (4, 0), (1, 5), (5, 1), (3, 4), (4, 3), (2, 7), (7, 2), (8, 7), (7, 8), (
            0,
            6,
        ), (6, 0), (2, 9), (9, 2), (7, 9), (9, 7)].contains((i, j))) ==> default_similarity(i, j)
            == 0x3e99_999au32,
{
}

/// Mapping from relationship properties to angle bins and similarities.
pub struct PropertyAngleMap {
    /// The primary angle bin of each property, by index.
    property_to_bin: Vec<AngleBin>,
    /// Row-major 10 x 10 similarity matrix (`f32` bits).
    property_similarity: Vec<u32>,
}

impl PropertyAngleMap {
    /// The primary angle bins, by property index.
    pub closed spec fn bins(self) -> Seq<AngleBin> {
        self.property_to_bin@
    }

    /// The similarity matrix, row-major, as bits.
    pub closed spec fn similarities(self) -> Seq<u32> {
        self.property_similarity@
    }

    /// The default map: properties spread over the angle bins, and the
    /// default similarity matrix.
    pub fn default() -> (r: Self)
        ensures
            r.bins().len() == 10,
            forall|i: int| 0 <= i < 10 ==> #[trigger] r.bins()[i] == default_bin(i as nat),
            r.similarities().len() == 100,
            forall|i: int, j: int|
                0 <= i < 10 && 0 <= j < 10 ==> #[trigger] r.similarities()[10 * i + j]
                    == default_similarity(i as nat, j as nat),
    {
        let mut property_to_bin: Vec<AngleBin> = Vec::new();
        property_to_bin.push(0);
        property_to_bin.push(2);
        property_to_bin.push(4);
        property_to_bin.push(6);
        property_to_bin.push(8);
        property_to_bin.push(10);
        property_to_bin.push(12);
        property_to_bin.push(14);
        property_to_bin.push(1);
        property_to_bin.push(15);
        let mut property_similarity: Vec<u32> = Vec::new();
        let mut i: usize = 0;
        while i < 10
            invariant
                i <= 10,
                property_similarity@.len() == 10 * i,
                forall|a: int, c: int|
                    0 <= a < i && 0 <= c < 10 ==> #[trigger] property_similarity@[10 * a + c]
                        == default_similarity(a as nat, c as nat),
            decreases 10 - i,
        {
            let mut j: usize = 0;
            while j < 10
                invariant
                    i < 10,
                    j <= 10,
                    property_similarity@.len() == 10 * i + j,
                    forall|a: int, c: int|
                        0 <= a < i && 0 <= c < 10 ==> #[trigger] property_similarity@[10 * a + c]
                            == default_similarity(a as nat, c as nat),
                    forall|c: int|
                        0 <= c < j ==> #[trigger] property_similarity@[10 * i + c]
                            == default_similarity(i as nat, c as nat),
                decreases 10 - j,
            {
                property_similarity.push(default_similarity_at(i, j));
                j = j + 1;
            }
            i = i + 1;
        }
        let r = PropertyAngleMap { property_to_bin, property_similarity };
        proof {
            assert forall|k: int| 0 <= k < 10 implies #[trigger] r.bins()[k] == default_bin(k as nat) by {}
        }
        r
    }

    /// The angle bin of a property.
    pub fn angle_bin(&self, property: RelationshipProperty) -> (r: AngleBin)
        ensures
            property.index() < self.bins().len() ==> r == self.bins()[property.index() as int],
            property.index() >= self.bins().len() ==> r == 0,
    {
        let i = property.as_usize();
        if i < self.property_to_bin.len() {
            self.property_to_bin[i]
        } else {
            0
        }
    }

    /// Similarity between two properties (an `f32` in `[0, 1]`, as bits).
    pub fn similarity_bits(&self, p1: RelationshipProperty, p2: RelationshipProperty) -> (r: u32)
        ensures
            10 * p1.index() + p2.index() < self.similarities().len() ==> r == self.similarities()[(10
                * p1.index() + p2.index()) as int],
            10 * p1.index() + p2.index() >= self.similarities().len() ==> r == 0,
    {
        let k = 10 * p1.as_usize() + p2.as_usize();
        if k < self.property_similarity.len() {
            self.property_similarity[k]
        } else {
            0
        }
    }

    /// Angular distance between the angle bins of two properties.
    pub fn angular_distance(&self, p1: RelationshipProperty, p2: RelationshipProperty) -> (r: u8)
        ensures
            p1.index() < self.bins().len() && p2.index() < self.bins().len() ==> r
                == angular_distance_spec(
                self.bins()[p1.index() as int],
                self.bins()[p2.index() as int],
                N_ANGLE_BINS as int,
            ),
    {
        let bin1 = self.angle_bin(p1);
        let bin2 = self.angle_bin(p2);
        angular_distance(bin1, bin2, N_ANGLE_BINS)
    }
}

/// The default similarity is symmetric, and 1.0 exactly between a property
/// and itself.
pub proof fn lemma_default_similarity(i: nat, j: nat)
    requires
        i < 10,
        j < 10,
    ensures
        default_similarity(i, j) == default_similarity(j, i),
        default_similarity(i, i) == SIM_ONE,
        i != j ==> default_similarity(i, j) != SIM_ONE,
{
}

} // verus!
