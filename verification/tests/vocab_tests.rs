use rgdb::property_map::{angular_distance, PropertyAngleMap, RelationshipProperty};
use rgdb::relation::{RelationVocab, RelationVocabError};

fn bits(x: f32) -> u32 {
    x.to_bits()
}

#[test]
fn uniform_has_all_ones() {
    let v = RelationVocab::uniform(3);
    assert_eq!(v.len(), 3);
    assert_eq!(f32::from_bits(v.similarity_bits(0, 2)), 1.0);
    assert_eq!(f32::from_bits(v.similarity_bits(1, 1)), 1.0);
}

#[test]
fn new_validates_matrix_shape() {
    assert!(RelationVocab::new(vec!["a".into(), "b".into()], vec![bits(1.0); 4]).is_ok());
    assert!(RelationVocab::new(vec!["a".into(), "b".into()], vec![bits(1.0); 3]).is_err());
}

#[test]
fn lookup_by_name_and_similarity() {
    let names = vec!["isa".into(), "causes".into()];
    let sim = vec![bits(1.0), bits(0.2), bits(0.2), bits(1.0)]; // row-major 2x2
    let v = RelationVocab::new(names, sim).unwrap();
    assert_eq!(v.id_of("causes"), Some(1));
    assert_eq!(v.id_of("missing"), None);
    assert_eq!(f32::from_bits(v.similarity_bits(0, 1)), 0.2);
    assert_eq!(v.name(1), Some("causes"));
}

#[test]
fn vocab_edges() {
    let v = RelationVocab::uniform(2);
    assert_eq!(v.name(0), Some("r0"));
    assert_eq!(v.name(2), None);
    assert_eq!(v.similarity_bits(2, 0), 0);
    assert!(!v.is_empty());
    assert!(RelationVocab::uniform(0).is_empty());
    let w = RelationVocab::with_names_uniform(vec!["x".into(), "x".into()]);
    assert_eq!(w.id_of("x"), Some(0));
    assert_eq!(w.matrix().len(), 4);
    match RelationVocab::new(vec!["a".into()], vec![]) {
        Err(RelationVocabError::BadShape { n, expected, got }) => {
            assert_eq!((n, expected, got), (1, 1, 0));
        }
        _ => panic!("expected a shape error"),
    }
    let e = RelationVocab::new(vec!["a".into()], vec![]).err().unwrap();
    assert_eq!(e.to_message(), "similarity matrix must be 1 entries (1x1), got 0");
}

#[test]
fn test_property_angle_mapping() {
    let map = PropertyAngleMap::default();

    // Test that each property has an angle bin
    for property in [
        RelationshipProperty::IsA,
        RelationshipProperty::RelatedTo,
        RelationshipProperty::Causes,
    ] {
        let bin = map.angle_bin(property);
        assert!(bin < 16u8);
    }
}

#[test]
fn test_property_similarity() {
    let map = PropertyAngleMap::default();

    // Same property should have similarity 1.0
    assert_eq!(
        f32::from_bits(map.similarity_bits(RelationshipProperty::IsA, RelationshipProperty::IsA)),
        1.0
    );

    // Similar properties should have high similarity
    let sim = f32::from_bits(map.similarity_bits(RelationshipProperty::Contains, RelationshipProperty::PartOf));
    assert!(sim > 0.5);

    // Opposite properties should have low similarity
    let sim = f32::from_bits(map.similarity_bits(RelationshipProperty::IsA, RelationshipProperty::OppositeOf));
    assert!(sim < 0.5);
}

#[test]
fn property_table_values() {
    let map = PropertyAngleMap::default();
    assert_eq!(map.angle_bin(RelationshipProperty::Requires), 1);
    assert_eq!(map.angle_bin(RelationshipProperty::ConflictsWith), 15);
    assert_eq!(f32::from_bits(map.similarity_bits(RelationshipProperty::Causes, RelationshipProperty::Enables)), 0.6);
    assert_eq!(f32::from_bits(map.similarity_bits(RelationshipProperty::Enables, RelationshipProperty::Requires)), 0.5);
    assert_eq!(f32::from_bits(map.similarity_bits(RelationshipProperty::IsA, RelationshipProperty::Causes)), 0.3);
    assert_eq!(RelationshipProperty::count(), 10);
    assert_eq!(RelationshipProperty::ConflictsWith.as_usize(), 9);
    // IsA at bin 0, ConflictsWith at bin 15: one step apart on the circle.
    assert_eq!(map.angular_distance(RelationshipProperty::IsA, RelationshipProperty::ConflictsWith), 1);
}

#[test]
fn angular_distance_wraps_around() {
    assert_eq!(angular_distance(0, 15, 16), 1);
    assert_eq!(angular_distance(3, 11, 16), 8);
    assert_eq!(angular_distance(5, 5, 16), 0);
    assert_eq!(angular_distance(2, 9, 16), angular_distance(9, 2, 16));
    assert_eq!(angular_distance(2, 10, 16), 8);
}

#[test]
fn angular_distance_with_a_large_bin_count() {
    // More bins than an i32 holds: the distance is the plain difference.
    let many = ((1u64 << 32) + 256) as usize;
    assert_eq!(angular_distance(0, 10, many), 10);
    assert_eq!(angular_distance(200, 3, many), 197);
}

#[test]
fn default_property_similarity_is_symmetric() {
    let map = PropertyAngleMap::default();
    let all = [
        RelationshipProperty::IsA,
        RelationshipProperty::Contains,
        RelationshipProperty::PartOf,
        RelationshipProperty::OppositeOf,
        RelationshipProperty::Causes,
    ];
    for a in all {
        assert_eq!(f32::from_bits(map.similarity_bits(a, a)), 1.0);
        for b in all {
            assert_eq!(map.similarity_bits(a, b), map.similarity_bits(b, a));
        }
    }
}
