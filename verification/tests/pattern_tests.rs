use anderion_sigint_ml::error::SdkError;
use anderion_sigint_ml::ontology::ConceptKind;
use anderion_sigint_ml::pattern::{
    pattern_event_from_prediction, PatternEngine, PatternEvent, PatternToken,
};

fn token(symbol: &str) -> PatternToken {
    PatternToken::new(ConceptKind::SignalEvent, symbol.to_string(), None).unwrap()
}

fn event(ts: u64, symbol: &str) -> PatternEvent {
    PatternEvent::new(ts, token(symbol))
}

fn symbols(tokens: &[PatternToken]) -> Vec<String> {
    tokens.iter().map(|t| t.symbol().to_string()).collect()
}

#[test]
fn token_rejects_blank_symbol() {
    let err = PatternToken::new(ConceptKind::SignalEvent, "   ".to_string(), None).unwrap_err();
    assert_eq!(err, SdkError::InvalidArgument("pattern symbol must not be empty".to_string()));
}

#[test]
fn token_rejects_long_cluster() {
    let err = PatternToken::new(
        ConceptKind::Pattern,
        "burst".to_string(),
        Some("c".repeat(513)),
    )
    .unwrap_err();
    assert_eq!(err, SdkError::DimensionLimit { actual: 513, max: 512 });
}

#[test]
fn token_keeps_its_fields() {
    let t = PatternToken::new(ConceptKind::Embedding, "x".to_string(), Some("k1".to_string())).unwrap();
    assert_eq!(t.concept(), ConceptKind::Embedding);
    assert_eq!(t.symbol(), "x");
    assert_eq!(t.embedding_cluster(), Some("k1"));
    let e = PatternEvent::new(9, t);
    assert_eq!(e.timestamp_ms(), 9);
    assert_eq!(e.token().symbol(), "x");
}

#[test]
fn engine_limits_are_checked() {
    assert!(PatternEngine::with_limits(0, 4).is_err());
    assert!(PatternEngine::with_limits(10, 1).is_err());
    assert!(PatternEngine::with_limits(10, 17).is_err());
    assert!(PatternEngine::with_limits(10, 16).is_ok());
    assert_eq!(
        PatternEngine::with_limits(10, 1).unwrap_err(),
        SdkError::InvalidArgument("invalid pattern engine limits".to_string())
    );
}

#[test]
fn recurring_pairs_are_counted_with_their_starts() {
    let engine = PatternEngine::default();
    let events = vec![event(1, "A"), event(2, "B"), event(3, "A"), event(4, "B"), event(5, "A")];
    let found = engine.detect_sequences(&events, 2, 2).unwrap();
    assert_eq!(found.len(), 2);
    assert_eq!(symbols(found[0].tokens()), vec!["A", "B"]);
    assert_eq!(found[0].occurrences(), 2);
    assert_eq!(found[0].occurrence_starts_ms(), &[1, 3]);
    assert_eq!(symbols(found[1].tokens()), vec!["B", "A"]);
    assert_eq!(found[1].occurrences(), 2);
    assert_eq!(found[1].occurrence_starts_ms(), &[2, 4]);
}

#[test]
fn equally_frequent_sequences_follow_token_order() {
    let engine = PatternEngine::default();
    let events = vec![
        event(1, "B"),
        event(2, "B"),
        event(3, "B"),
        event(4, "A"),
        event(5, "C"),
        event(6, "A"),
        event(7, "C"),
    ];
    let found = engine.detect_sequences(&events, 2, 2).unwrap();
    assert_eq!(found.len(), 2);
    assert_eq!(symbols(found[0].tokens()), vec!["A", "C"]);
    assert_eq!(found[0].occurrences(), 2);
    assert_eq!(symbols(found[1].tokens()), vec!["B", "B"]);
    assert_eq!(found[1].occurrence_starts_ms(), &[1, 2]);
}

#[test]
fn more_frequent_sequences_come_first() {
    let engine = PatternEngine::default();
    let events = vec![
        event(1, "D"),
        event(2, "C"),
        event(3, "D"),
        event(4, "C"),
        event(5, "D"),
        event(6, "C"),
    ];
    let found = engine.detect_sequences(&events, 2, 2).unwrap();
    assert_eq!(found.len(), 2);
    assert_eq!(symbols(found[0].tokens()), vec!["D", "C"]);
    assert_eq!(found[0].occurrences(), 3);
    assert_eq!(found[0].occurrence_starts_ms(), &[1, 3, 5]);
    assert_eq!(symbols(found[1].tokens()), vec!["C", "D"]);
    assert_eq!(found[1].occurrences(), 2);
}

#[test]
fn arrival_order_does_not_change_sequences() {
    let engine = PatternEngine::default();
    let ordered = vec![event(1, "A"), event(2, "B"), event(3, "A"), event(4, "B")];
    let shuffled = vec![event(4, "B"), event(1, "A"), event(3, "A"), event(2, "B")];
    let a = engine.detect_sequences(&ordered, 2, 2).unwrap();
    let b = engine.detect_sequences(&shuffled, 2, 2).unwrap();
    assert_eq!(a.len(), b.len());
    for (x, y) in a.iter().zip(b.iter()) {
        assert_eq!(symbols(x.tokens()), symbols(y.tokens()));
        assert_eq!(x.occurrence_starts_ms(), y.occurrence_starts_ms());
    }
}

#[test]
fn equal_timestamps_are_ordered_by_token() {
    let engine = PatternEngine::default();
    let events = vec![event(5, "B"), event(5, "A"), event(6, "B"), event(6, "A")];
    let found = engine.detect_sequences(&events, 2, 2).unwrap();
    assert_eq!(found.len(), 1);
    assert_eq!(symbols(found[0].tokens()), vec!["A", "B"]);
    assert_eq!(found[0].occurrence_starts_ms(), &[5, 6]);
}

#[test]
fn too_few_events_find_nothing() {
    let engine = PatternEngine::default();
    let events = vec![event(1, "A"), event(2, "B")];
    assert!(engine.detect_sequences(&events, 3, 2).unwrap().is_empty());
}

#[test]
fn sequence_requests_are_checked() {
    let engine = PatternEngine::with_limits(3, 4).unwrap();
    let events = vec![event(1, "A"), event(2, "B")];
    assert_eq!(
        engine.detect_sequences(&events, 2, 1).unwrap_err(),
        SdkError::InvalidArgument("min_occurrences must be at least 2".to_string())
    );
    assert_eq!(
        engine.detect_sequences(&events, 5, 2).unwrap_err(),
        SdkError::InvalidArgument("sequence_len is outside configured limits".to_string())
    );
    assert_eq!(
        engine.detect_sequences(&events, 1, 2).unwrap_err(),
        SdkError::InvalidArgument("sequence_len is outside configured limits".to_string())
    );
    let many = vec![event(1, "A"), event(2, "B"), event(3, "C"), event(4, "D")];
    assert_eq!(
        engine.detect_sequences(&many, 2, 2).unwrap_err(),
        SdkError::DimensionLimit { actual: 4, max: 3 }
    );
}

#[test]
fn cooccurrences_count_buckets() {
    let engine = PatternEngine::default();
    let events = vec![
        event(1, "A"),
        event(2, "B"),
        event(11, "A"),
        event(12, "B"),
        event(13, "C"),
        event(21, "A"),
        event(25, "B"),
        event(26, "B"),
    ];
    let found = engine.detect_cooccurrences(&events, 10, 2).unwrap();
    assert_eq!(found.len(), 1);
    assert_eq!(found[0].left().symbol(), "A");
    assert_eq!(found[0].right().symbol(), "B");
    assert_eq!(found[0].occurrences(), 3);
    let all = engine.detect_cooccurrences(&events, 1_000, 2);
    assert!(all.unwrap().is_empty());
}

#[test]
fn cooccurrences_are_ordered_by_count_then_pair() {
    let engine = PatternEngine::default();
    let events = vec![
        event(0, "C"),
        event(1, "D"),
        event(10, "A"),
        event(11, "B"),
        event(20, "A"),
        event(21, "B"),
        event(30, "C"),
        event(31, "D"),
        event(40, "A"),
        event(41, "B"),
    ];
    let found = engine.detect_cooccurrences(&events, 10, 2).unwrap();
    assert_eq!(found.len(), 2);
    assert_eq!((found[0].left().symbol(), found[0].right().symbol()), ("A", "B"));
    assert_eq!(found[0].occurrences(), 3);
    assert_eq!((found[1].left().symbol(), found[1].right().symbol()), ("C", "D"));
    assert_eq!(found[1].occurrences(), 2);
}

#[test]
fn zero_bucket_is_rejected() {
    let engine = PatternEngine::default();
    let events = vec![event(1, "A")];
    assert_eq!(
        engine.detect_cooccurrences(&events, 0, 2).unwrap_err(),
        SdkError::InvalidArgument("bucket_ms must be positive".to_string())
    );
}

#[test]
fn prediction_without_top_class_is_rejected() {
    let err = pattern_event_from_prediction(3, None, None).unwrap_err();
    assert_eq!(err, SdkError::InvalidArgument("prediction has no top class".to_string()));
    let e = pattern_event_from_prediction(3, Some("fm".to_string()), None).unwrap();
    assert_eq!(e.token().concept(), ConceptKind::SignalEvent);
    assert_eq!(e.token().symbol(), "fm");
}
