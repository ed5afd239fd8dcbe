use anderion_sigint_ml::error::SdkError;
use anderion_sigint_ml::evidence_graph::{EvidenceEdgeKind, SessionEvidenceGraph};
use anderion_sigint_ml::ontology::{
    allowed_relation, max_cardinality, semantic_graph_for_prediction, ConceptKind, ConsistencyReport,
    ConsistencyViolation, OntologyGraph, OntologyNode, OntologyRelation, RelationKind,
};

fn node(id: &str, kind: ConceptKind) -> OntologyNode {
    OntologyNode::new(id.to_string(), kind, None).unwrap()
}

fn relation(source: &str, kind: RelationKind, target: &str) -> OntologyRelation {
    OntologyRelation::new(source.to_string(), kind, target.to_string()).unwrap()
}

#[test]
fn semantic_graph_is_consistent() {
    let graph = semantic_graph_for_prediction("obs-1", "fm").unwrap();
    assert_eq!(graph.schema_version(), "sigint-ontology-v1");
    assert_eq!(graph.nodes().len(), 5);
    assert_eq!(graph.relations().len(), 4);
    let report = graph.validate_reference_schema();
    assert!(report.is_valid());
    assert!(report.violations().is_empty());
}

#[test]
fn semantic_graph_rejects_blank_label() {
    let err = semantic_graph_for_prediction("obs-1", " ").unwrap_err();
    assert_eq!(err, SdkError::InvalidArgument("ontology node label must not be empty".to_string()));
}

#[test]
fn duplicate_nodes_and_dangling_relations_are_rejected() {
    let mut graph = OntologyGraph::new("sigint-ontology-v1".to_string()).unwrap();
    graph.add_node(node("a", ConceptKind::Observation)).unwrap();
    assert_eq!(
        graph.add_node(node("a", ConceptKind::FeatureSet)).unwrap_err(),
        SdkError::InvalidArgument("duplicate ontology node id".to_string())
    );
    assert_eq!(
        graph.add_relation(relation("a", RelationKind::Contains, "b")).unwrap_err(),
        SdkError::InvalidArgument("ontology relation endpoint does not exist".to_string())
    );
    graph.add_node(node("b", ConceptKind::FeatureSet)).unwrap();
    graph.add_relation(relation("a", RelationKind::Contains, "b")).unwrap();
    assert_eq!(graph.relations().len(), 1);
    assert!(graph.validate_reference_schema().is_valid());
}

#[test]
fn schema_violations_are_reported() {
    let mut graph = OntologyGraph::new("sigint-ontology-v1".to_string()).unwrap();
    graph.add_node(node("e", ConceptKind::SignalEvent)).unwrap();
    graph.add_node(node("c1", ConceptKind::SignalClass)).unwrap();
    graph.add_node(node("c2", ConceptKind::SignalClass)).unwrap();
    graph.add_node(node("o", ConceptKind::Observation)).unwrap();
    graph.add_relation(relation("e", RelationKind::ClassifiedAs, "c1")).unwrap();
    graph.add_relation(relation("e", RelationKind::ClassifiedAs, "c2")).unwrap();
    graph.add_relation(relation("o", RelationKind::ClassifiedAs, "c1")).unwrap();
    let report = graph.validate_reference_schema();
    assert!(!report.is_valid());
    let found: Vec<(String, String)> = report
        .violations()
        .iter()
        .map(|v| (v.code().to_string(), v.message().to_string()))
        .collect();
    assert_eq!(
        found,
        vec![
            ("cardinality".to_string(), "source e has 2 ClassifiedAs relations".to_string()),
            (
                "relation-schema".to_string(),
                "relation ClassifiedAs is not allowed from Observation to SignalClass".to_string()
            ),
        ]
    );
}

#[test]
fn wrong_schema_version_is_a_violation() {
    let graph = OntologyGraph::new("v0".to_string()).unwrap();
    let report = graph.validate_reference_schema();
    assert_eq!(report.violations().len(), 1);
    assert_eq!(report.violations()[0].code(), "schema-version");
}

#[test]
fn reference_schema_table() {
    assert!(allowed_relation(ConceptKind::SignalEvent, RelationKind::ClassifiedAs, ConceptKind::SignalClass));
    assert!(!allowed_relation(ConceptKind::SignalClass, RelationKind::ClassifiedAs, ConceptKind::SignalEvent));
    assert_eq!(max_cardinality(RelationKind::HasEmbedding), Some(1));
    assert_eq!(max_cardinality(RelationKind::Contains), None);
}

#[test]
fn reports_sort_and_deduplicate() {
    let v1 = ConsistencyViolation::new("b".to_string(), "x".to_string()).unwrap();
    let v2 = ConsistencyViolation::new("a".to_string(), "y".to_string()).unwrap();
    let v3 = ConsistencyViolation::new("b".to_string(), "x".to_string()).unwrap();
    let report = ConsistencyReport::from_violations(vec![v1, v2, v3]);
    let codes: Vec<&str> = report.violations().iter().map(|v| v.code()).collect();
    assert_eq!(codes, vec!["a", "b"]);
    assert!(ConsistencyReport::valid().is_valid());
    assert_eq!(
        ConsistencyViolation::new(" ".to_string(), "m".to_string()).unwrap_err(),
        SdkError::InvalidArgument("consistency code must not be empty".to_string())
    );
}

#[test]
fn evidence_graph_explains_decisions() {
    let mut graph = SessionEvidenceGraph::new();
    let decision = graph.add_node("decision".to_string(), "accept".to_string());
    let support = graph.add_node("evidence".to_string(), "strong match".to_string());
    let against = graph.add_node("evidence".to_string(), "drift".to_string());
    assert_eq!((decision, support, against), (0, 1, 2));
    graph.add_edge(support, decision, EvidenceEdgeKind::Supports).unwrap();
    graph.add_edge(against, decision, EvidenceEdgeKind::Contradicts).unwrap();
    graph.add_edge(support, against, EvidenceEdgeKind::DerivedFrom).unwrap();
    let why = graph.why(decision).unwrap();
    assert_eq!(why.decision.label, "accept");
    assert_eq!(why.supporting.len(), 1);
    assert_eq!(why.supporting[0].label, "strong match");
    assert_eq!(why.contradicting.len(), 1);
    assert_eq!(why.contradicting[0].label, "drift");
}

#[test]
fn evidence_edges_need_known_nodes() {
    let mut graph = SessionEvidenceGraph::new();
    let a = graph.add_node("k".to_string(), "l".to_string());
    assert_eq!(
        graph.add_edge(a, 7, EvidenceEdgeKind::Supports).unwrap_err(),
        SdkError::InvalidArgument("evidence edge references an unknown node".to_string())
    );
    assert_eq!(
        graph.why(9).unwrap_err(),
        SdkError::InvalidArgument("decision node not found".to_string())
    );
    graph.clear();
    assert!(graph.nodes().is_empty());
    assert!(graph.edges().is_empty());
}
