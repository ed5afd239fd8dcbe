use anderion_sigint_ml::artifact::ArtifactManifest;
use anderion_sigint_ml::dataset::{grouped_split_plan, stable_hash, DatasetManifest};
use anderion_sigint_ml::error::SdkError;
use anderion_sigint_ml::evaluation::classification_counts;

fn strings(values: &[&str]) -> Vec<String> {
    values.iter().map(|v| v.to_string()).collect()
}

#[test]
fn stable_hash_is_fnv1a() {
    assert_eq!(stable_hash(b"", 0), 0xcbf2_9ce4_8422_2325);
    assert_eq!(stable_hash(b"a", 0), 0xaf63_dc4c_8601_ec8c);
    assert_eq!(stable_hash(b"foobar", 0), 0x8594_4171_f739_67e8);
    assert_eq!(stable_hash(b"", 7), 0xcbf2_9ce4_8422_2325 ^ 7);
}

#[test]
fn payload_digest_is_sha256() {
    let m = ArtifactManifest::for_payload("model".to_string(), "prototype".to_string(), 1, b"abc").unwrap();
    assert_eq!(m.payload_sha256, "ba7816bf8f01cfea414140de5dae2223b00361a396177a9cb410ff61f20015ad");
    assert_eq!(m.payload_len, 3);
}

#[test]
fn dataset_manifest_hashes_serialized_rows() {
    let m = DatasetManifest::from_serialized("v1".to_string(), 2, b"").unwrap();
    assert_eq!(m.sha256, "e3b0c44298fc1c149afbf4c8996fb92427ae41e4649b934ca495991b7852b855");
    assert_eq!(m.row_count, 2);
    assert_eq!(m.version, "v1");
    assert_eq!(DatasetManifest::from_serialized("v1".to_string(), 0, b"x").unwrap_err(), SdkError::EmptyDataset);
    assert_eq!(
        DatasetManifest::from_serialized(" ".to_string(), 1, b"x").unwrap_err(),
        SdkError::InvalidArgument("dataset version must be non-empty".to_string())
    );
}

#[test]
fn grouped_split_keeps_groups_together() {
    let groups = strings(&["a", "b", "a", "c", "b", "d", "c", "a"]);
    let flags = grouped_split_plan(&groups, 4, 42).unwrap();
    assert_eq!(flags.len(), groups.len());
    for i in 0..groups.len() {
        for j in 0..groups.len() {
            if groups[i] == groups[j] {
                assert_eq!(flags[i], flags[j]);
            }
        }
    }
    assert!(flags.iter().any(|f| *f));
    assert!(flags.iter().any(|f| !*f));
}

#[test]
fn grouped_split_follows_hash_order() {
    let groups = strings(&["a", "b"]);
    let flags = grouped_split_plan(&groups, 1, 0).unwrap();
    let first_is_a = stable_hash(b"a", 0) < stable_hash(b"b", 0);
    assert_eq!(flags, vec![first_is_a, !first_is_a]);
}

#[test]
fn grouped_split_needs_two_groups() {
    assert_eq!(grouped_split_plan(&[], 1, 0).unwrap_err(), SdkError::EmptyDataset);
    assert_eq!(
        grouped_split_plan(&strings(&["x", "x"]), 1, 0).unwrap_err(),
        SdkError::InvalidArgument("grouped split requires at least two groups".to_string())
    );
}

#[test]
fn classification_counts_tally_rows() {
    let truth = strings(&["a", "b", "a"]);
    let predicted = strings(&["a", "a", "b"]);
    let c = classification_counts(&truth, &predicted).unwrap();
    assert_eq!(c.correct, 1);
    assert_eq!(c.total, 3);
    assert_eq!(c.labels.len(), 2);
    assert_eq!(c.labels[0].label, "a");
    assert_eq!((c.labels[0].true_positives, c.labels[0].false_positives, c.labels[0].false_negatives), (1, 1, 1));
    assert_eq!(c.labels[1].label, "b");
    assert_eq!((c.labels[1].true_positives, c.labels[1].false_positives, c.labels[1].false_negatives), (0, 1, 1));
    let cells: Vec<(String, String, u64)> =
        c.confusion.iter().map(|x| (x.actual.clone(), x.predicted.clone(), x.count)).collect();
    assert_eq!(
        cells,
        vec![
            ("a".to_string(), "a".to_string(), 1),
            ("a".to_string(), "b".to_string(), 1),
            ("b".to_string(), "a".to_string(), 1)
        ]
    );
}

#[test]
fn classification_counts_reject_bad_shapes() {
    assert_eq!(classification_counts(&[], &[]).unwrap_err(), SdkError::EmptyDataset);
    assert_eq!(
        classification_counts(&strings(&["a"]), &strings(&["a", "b"])).unwrap_err(),
        SdkError::DimensionMismatch { expected: 1, actual: 2 }
    );
}

#[test]
fn classification_labels_include_predictions_only_labels() {
    let c = classification_counts(&strings(&["x", "x"]), &strings(&["x", "y"])).unwrap();
    let names: Vec<&str> = c.labels.iter().map(|l| l.label.as_str()).collect();
    assert_eq!(names, vec!["x", "y"]);
    assert_eq!(c.labels[1].false_positives, 1);
    assert_eq!(c.labels[1].true_positives, 0);
}
