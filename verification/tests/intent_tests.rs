use rgdb::intent::{IntentClassifier, QueryIntent};

#[test]
fn test_definition_intent() {
    let classifier = IntentClassifier::new();

    assert_eq!(classifier.classify("What is machine learning?"), QueryIntent::Definition);
    assert_eq!(classifier.classify("Define artificial intelligence"), QueryIntent::Definition);
    assert_eq!(classifier.classify("Explain what neural networks are"), QueryIntent::Definition);
}

#[test]
fn test_causal_intent() {
    let classifier = IntentClassifier::new();

    assert_eq!(classifier.classify("Why does this happen?"), QueryIntent::Causation);
    assert_eq!(classifier.classify("What causes climate change?"), QueryIntent::Causation);
    assert_eq!(classifier.classify("What leads to success?"), QueryIntent::Causation);
}

#[test]
fn test_requirement_intent() {
    let classifier = IntentClassifier::new();

    assert_eq!(classifier.classify("What do I need to learn Python?"), QueryIntent::Requirements);
    assert_eq!(classifier.classify("Prerequisites for data science"), QueryIntent::Requirements);
    assert_eq!(classifier.classify("How to build a website"), QueryIntent::Requirements);
}

#[test]
fn test_similarity_intent() {
    let classifier = IntentClassifier::new();

    assert_eq!(classifier.classify("What's similar to Python?"), QueryIntent::Similarity);
    assert_eq!(classifier.classify("Alternatives to TensorFlow"), QueryIntent::Similarity);
}

#[test]
fn test_default_association() {
    let classifier = IntentClassifier::new();

    // Generic queries should default to Association
    assert_eq!(classifier.classify("Tell me about Python"), QueryIntent::Association);
    assert_eq!(classifier.classify("Python programming"), QueryIntent::Association);
}

#[test]
fn classify_lowered_takes_the_first_matching_intent() {
    let classifier = IntentClassifier::new();
    // "what is" (definition) and "cause" (causal) both occur: definition wins.
    assert_eq!(classifier.classify_lowered("what is the cause"), QueryIntent::Definition);
    // Upper-case text is not lowered by classify_lowered.
    assert_eq!(classifier.classify_lowered("WHY"), QueryIntent::Association);
    assert_eq!(classifier.classify("WHY"), QueryIntent::Causation);
    assert_eq!(classifier.classify_lowered("it conflicts with that"), QueryIntent::Conflict);
    assert_eq!(classifier.classify_lowered("a versus b"), QueryIntent::Contrast);
    assert_eq!(classifier.classify_lowered("it contains water"), QueryIntent::Composition);
    assert_eq!(classifier.classify_lowered("a member of the club"), QueryIntent::Membership);
    assert_eq!(classifier.classify_lowered("it enables growth"), QueryIntent::Capability);
    assert_eq!(classifier.classify_lowered(""), QueryIntent::Association);
}

#[test]
fn relation_names_of_intents() {
    assert_eq!(QueryIntent::Definition.relation_name(), "IsA");
    assert_eq!(QueryIntent::Requirements.relation_name(), "Requires");
    assert_eq!(QueryIntent::Association.relation_name(), "RelatedTo");
    assert_eq!(QueryIntent::Causation.relation_name(), "Causes");
    assert_eq!(QueryIntent::Composition.relation_name(), "Contains");
    assert_eq!(QueryIntent::Membership.relation_name(), "PartOf");
    assert_eq!(QueryIntent::Similarity.relation_name(), "SimilarTo");
    assert_eq!(QueryIntent::Contrast.relation_name(), "OppositeOf");
    assert_eq!(QueryIntent::Capability.relation_name(), "Enables");
    assert_eq!(QueryIntent::Conflict.relation_name(), "ConflictsWith");
    assert_eq!(QueryIntent::MultiHop.relation_name(), "RelatedTo");
}

#[test]
fn best_by_count_picks_the_most_matched_intent() {
    let classifier = IntentClassifier::new();
    // Two causal keywords ("why", "cause") against one definition keyword ("what is").
    assert_eq!(classifier.best_by_count("what is why the cause"), (QueryIntent::Causation, 2));
    // No keyword at all.
    assert_eq!(classifier.best_by_count("python"), (QueryIntent::Association, 0));
    // A tie between definition ("define") and similarity ("like"): the later one wins.
    assert_eq!(classifier.best_by_count("define like"), (QueryIntent::Similarity, 1));
}

#[test]
fn default_classifier_matches_new() {
    let classifier = IntentClassifier::default();
    assert_eq!(classifier.classify("Why?"), QueryIntent::Causation);
}
