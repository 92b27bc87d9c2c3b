use rgdb::graph::N_ANGLE_BINS;
use rgdb::personalization::{BoostInputs, UserContext, MAX_SESSION_NODES};

#[test]
fn test_user_context_creation() {
    let ctx = UserContext::new("user123".to_string());
    assert_eq!(ctx.user_id, "user123");
    let affinities: Vec<f32> = ctx.topic_affinity_bits.iter().map(|b| f32::from_bits(*b)).collect();
    assert_eq!(affinities, vec![1.0f32; N_ANGLE_BINS]);
}

#[test]
fn test_record_interaction() {
    let mut ctx = UserContext::new("user123".to_string());

    ctx.record_interaction(5);
    ctx.record_interaction(5);
    ctx.record_interaction(10);

    assert_eq!(ctx.interaction_history.get(&5), Some(&2));
    assert_eq!(ctx.interaction_history.get(&10), Some(&1));
    assert_eq!(ctx.session_nodes[0], 10);
}

#[test]
fn test_access_control() {
    let mut ctx = UserContext::new("user123".to_string());

    assert!(ctx.can_access_room(1));
    assert!(ctx.can_access_room(999));

    ctx.add_accessible_room(1);
    ctx.add_accessible_room(2);

    assert!(ctx.can_access_room(1));
    assert!(ctx.can_access_room(2));
    assert!(!ctx.can_access_room(3));
}

#[test]
fn test_feed_seeds() {
    let mut ctx = UserContext::new("user123".to_string());

    ctx.record_interaction(1);
    ctx.record_interaction(2);
    ctx.record_interaction(3);

    for _ in 0..10 {
        ctx.record_interaction(100);
    }

    let seeds = ctx.get_feed_seeds(4);
    assert!(seeds.len() <= 4);
    assert!(seeds.contains(&3));
    assert!(seeds.contains(&100));
}

#[test]
fn feed_seeds_session_first_then_by_count() {
    let mut ctx = UserContext::new("u".to_string());
    for _ in 0..3 {
        ctx.record_interaction(7);
    }
    for _ in 0..5 {
        ctx.record_interaction(8);
    }
    ctx.record_interaction(9);
    ctx.record_interaction(4);
    // session: 4, 9, 8, 7; counts: 7 -> 3, 8 -> 5, 9 -> 1, 4 -> 1
    let seeds = ctx.get_feed_seeds(6);
    assert_eq!(seeds, vec![4, 9, 8, 7]);
    let seeds = ctx.get_feed_seeds(4);
    assert_eq!(seeds, vec![4, 9, 8, 7]);
    let seeds = ctx.get_feed_seeds(3);
    assert_eq!(seeds, vec![4, 8, 7]);
    assert_eq!(ctx.get_feed_seeds(0), Vec::<u32>::new());
}

#[test]
fn session_moves_to_front_and_is_bounded() {
    let mut ctx = UserContext::new("u".to_string());
    ctx.record_interaction(1);
    ctx.record_interaction(2);
    ctx.record_interaction(1);
    assert_eq!(ctx.session_nodes, vec![1, 2]);
    for n in 0..150u32 {
        ctx.record_interaction(1000 + n);
    }
    assert_eq!(ctx.session_nodes.len(), MAX_SESSION_NODES);
    assert_eq!(ctx.session_nodes[0], 1149);
    ctx.clear_session();
    assert!(ctx.session_nodes.is_empty());
    assert_eq!(ctx.interaction_history.get(&1), Some(&2));
    ctx.clear_all();
    assert!(ctx.interaction_history.is_empty());
}

#[test]
fn boost_inputs_follow_access_and_history() {
    let mut ctx = UserContext::new("u".to_string());
    assert_eq!(
        ctx.boost_inputs(5, None),
        BoostInputs::Accessible { interaction_count: None, session_position: None }
    );
    ctx.record_interaction(5);
    ctx.record_interaction(5);
    ctx.record_interaction(6);
    assert_eq!(
        ctx.boost_inputs(5, None),
        BoostInputs::Accessible { interaction_count: Some(2), session_position: Some(1) }
    );
    ctx.add_accessible_room(1);
    assert!(matches!(ctx.boost_inputs(5, Some(1)), BoostInputs::Accessible { .. }));
    assert_eq!(ctx.boost_inputs(5, Some(99)), BoostInputs::Inaccessible);
}

#[test]
fn topic_affinity_and_default() {
    let mut ctx = UserContext::default();
    assert_eq!(ctx.user_id, "anonymous");
    ctx.set_topic_affinity_bits(3, 0.5f32.to_bits());
    ctx.set_topic_affinity_bits(N_ANGLE_BINS, 0.25f32.to_bits());
    assert_eq!(f32::from_bits(ctx.topic_affinity_bits[3]), 0.5);
    assert_eq!(ctx.topic_affinity_bits.len(), N_ANGLE_BINS);
    assert_eq!(f32::from_bits(ctx.recency_decay_bits), 0.9f32);
}
