use anderion_sigint_ml::backend::{check_matvec_shape, BackendKind, CpuBackend};
use anderion_sigint_ml::benchmark::{measured_predictions, BenchmarkConfig};
use anderion_sigint_ml::cli::next_arg;
use anderion_sigint_ml::edge::{benchmark_inferences, profile_parameter_rows, RowSummary};
use anderion_sigint_ml::embedding::HashProjectionEncoder;
use anderion_sigint_ml::emitter_discovery::{allocate_unknown_id, check_local_enrollment, provisional_emitter_id};
use anderion_sigint_ml::error::SdkError;
use anderion_sigint_ml::metadata::ModelCard;
use anderion_sigint_ml::quantization::{validate_quantized_len, SymmetricQuantizer};
use anderion_sigint_ml::service::{discloses_detail, permit_count};
use anderion_sigint_ml::spectrum_encoder::{common_dimension, validate_mask, ReferenceSpectrumEncoder};
use anderion_sigint_ml::synthetic_adapter::{synthetic_id, SyntheticFeatureGenerator};
use anderion_sigint_ml::types::{check_score_labels, validate_label, validate_vector_len};

fn card() -> ModelCard {
    ModelCard {
        model_id: "m".to_string(),
        model_version: "1".to_string(),
        model_type: "prototype".to_string(),
        intended_use: "research".to_string(),
        input_dimension: 4,
        output_labels: vec!["a".to_string()],
        training_data_statement: "synthetic".to_string(),
        limitations: vec![],
        license: "MIT".to_string(),
    }
}

#[test]
fn model_card_checks_fields_in_order() {
    assert!(card().validate().is_ok());
    let mut c = card();
    c.model_type = " ".to_string();
    c.input_dimension = 0;
    assert_eq!(
        c.validate().unwrap_err(),
        SdkError::InvalidArgument("model card identifiers must be non-empty".to_string())
    );
    let mut c = card();
    c.input_dimension = 0;
    assert_eq!(
        c.validate().unwrap_err(),
        SdkError::InvalidArgument("model card input_dimension must be positive".to_string())
    );
    let mut c = card();
    c.license = "\t".to_string();
    assert_eq!(
        c.validate().unwrap_err(),
        SdkError::InvalidArgument("model card narrative fields must be non-empty".to_string())
    );
}

#[test]
fn quantizer_bits_and_levels() {
    assert_eq!(
        SymmetricQuantizer::new(1).unwrap_err(),
        SdkError::InvalidArgument("quantizer bits must be in 2..=8".to_string())
    );
    assert!(SymmetricQuantizer::new(9).is_err());
    assert_eq!(SymmetricQuantizer::new(8).unwrap().max_integer(), 127);
    assert_eq!(SymmetricQuantizer::new(4).unwrap().max_integer(), 7);
    assert_eq!(SymmetricQuantizer::new(2).unwrap().max_integer(), 1);
    assert_eq!(validate_quantized_len(0).unwrap_err(), SdkError::EmptyFeatures);
    assert_eq!(validate_quantized_len(8_193).unwrap_err(), SdkError::DimensionLimit { actual: 8_193, max: 8_192 });
    assert!(validate_quantized_len(8_192).is_ok());
}

#[test]
fn spectrum_encoder_dimensions() {
    let enc = ReferenceSpectrumEncoder::new(16, 8, 3).unwrap();
    assert_eq!(enc.extractor().spectrum_bins(), 16);
    assert_eq!(enc.projection().input_dim(), 28);
    assert_eq!(enc.projection().output_dim(), 8);
    assert_eq!(enc.projection().seed(), 3);
    assert_eq!(
        ReferenceSpectrumEncoder::new(0, 8, 3).unwrap_err(),
        SdkError::DimensionLimit { actual: 0, max: 64 }
    );
    assert_eq!(
        ReferenceSpectrumEncoder::new(16, 0, 3).unwrap_err(),
        SdkError::InvalidArgument("encoder dimensions must be positive".to_string())
    );
    assert_eq!(validate_mask(4, 3).unwrap_err(), SdkError::DimensionMismatch { expected: 4, actual: 3 });
    assert_eq!(common_dimension(&[]).unwrap_err(), SdkError::EmptyDataset);
    assert_eq!(common_dimension(&[5, 5]).unwrap(), 5);
    assert_eq!(
        common_dimension(&[5, 6]).unwrap_err(),
        SdkError::InvalidArgument("history embeddings must share a dimension".to_string())
    );
}

#[test]
fn synthetic_generator_sizes_and_ids() {
    assert_eq!(
        SyntheticFeatureGenerator::new(0, 1).unwrap_err(),
        SdkError::DimensionLimit { actual: 0, max: 65_536 }
    );
    let g = SyntheticFeatureGenerator::new(64, 1).unwrap();
    assert_eq!(g.generation_size(10).unwrap(), 640);
    assert_eq!(
        g.generation_size(0).unwrap_err(),
        SdkError::InvalidArgument("synthetic count must be in 1..=65536".to_string())
    );
    assert_eq!(g.generation_size(65_536).unwrap(), 4_194_304);
    let wide = SyntheticFeatureGenerator::new(65, 1).unwrap();
    assert_eq!(
        wide.generation_size(65_536).unwrap_err(),
        SdkError::DimensionLimit { actual: 4_259_840, max: 4_194_304 }
    );
    assert_eq!(synthetic_id(0), "synthetic-0");
    assert_eq!(synthetic_id(42), "synthetic-42");
}

#[test]
fn synthetic_words_depend_on_position_and_seed() {
    let g = SyntheticFeatureGenerator::new(4, 9).unwrap();
    let h = SyntheticFeatureGenerator::new(4, 10).unwrap();
    assert_ne!(g.feature_word(0, 0), g.feature_word(0, 1));
    assert_ne!(g.feature_word(0, 0), g.feature_word(1, 0));
    assert_ne!(g.feature_word(2, 3), h.feature_word(2, 3));
    assert_eq!(g.feature_word(2, 3), g.feature_word(2, 3));
    let enc = HashProjectionEncoder::new(4, 4, 9).unwrap();
    assert_ne!(enc.weight_word(0, 1), g.feature_word(0, 1));
}

#[test]
fn emitter_ids_are_padded() {
    assert_eq!(provisional_emitter_id(7), "rf-unknown-0007");
    assert_eq!(provisional_emitter_id(12_345), "rf-unknown-12345");
    let (id, next) = allocate_unknown_id(1);
    assert_eq!(id, "rf-unknown-0001");
    assert_eq!(next, 2);
    assert_eq!(allocate_unknown_id(u64::MAX).1, u64::MAX);
}

#[test]
fn local_enrollment_needs_confirmation() {
    assert_eq!(
        check_local_enrollment(0, true, Some(5)).unwrap_err(),
        SdkError::InvalidArgument("minimum support must be positive".to_string())
    );
    assert_eq!(
        check_local_enrollment(2, false, Some(5)).unwrap_err(),
        SdkError::InvalidArgument("local enrollment requires explicit operator confirmation".to_string())
    );
    assert_eq!(
        check_local_enrollment(2, true, None).unwrap_err(),
        SdkError::InvalidArgument("emitter hypothesis not found".to_string())
    );
    assert_eq!(
        check_local_enrollment(6, true, Some(5)).unwrap_err(),
        SdkError::InvalidArgument("insufficient evidence for local enrollment".to_string())
    );
    assert!(check_local_enrollment(5, true, Some(5)).is_ok());
}

#[test]
fn labels_and_vectors() {
    assert_eq!(
        validate_label("class label", " ").unwrap_err(),
        SdkError::InvalidArgument("class label must not be empty".to_string())
    );
    assert_eq!(
        validate_label("class label", &"x".repeat(4_097)).unwrap_err(),
        SdkError::DimensionLimit { actual: 4_097, max: 4_096 }
    );
    assert!(validate_label("class label", "ok").is_ok());
    assert_eq!(validate_vector_len(0, 4).unwrap_err(), SdkError::EmptyFeatures);
    assert_eq!(validate_vector_len(5, 4).unwrap_err(), SdkError::DimensionLimit { actual: 5, max: 4 });
}

#[test]
fn score_labels_must_be_distinct() {
    let labels: Vec<String> = vec!["b".into(), "a".into(), "c".into()];
    assert!(check_score_labels(&labels).is_ok());
    let dup: Vec<String> = vec!["b".into(), "a".into(), "b".into()];
    assert_eq!(
        check_score_labels(&dup).unwrap_err(),
        SdkError::InvalidArgument("prediction contains duplicate class labels".to_string())
    );
    assert_eq!(
        check_score_labels(&[]).unwrap_err(),
        SdkError::InvalidArgument("prediction requires at least one class score".to_string())
    );
}

#[test]
fn parameter_profile_counts_rows() {
    let rows = vec![
        RowSummary { len: 3, all_finite: true, nonzero: 2 },
        RowSummary { len: 2, all_finite: true, nonzero: 0 },
    ];
    let p = profile_parameter_rows(&rows).unwrap();
    assert_eq!(p.parameter_count, 5);
    assert_eq!(p.nonzero_parameters, 2);
    assert_eq!(p.bytes_f32, 20);
    assert_eq!(p.bytes_i8, 5);
    assert_eq!(profile_parameter_rows(&[]).unwrap_err(), SdkError::EmptyDataset);
    let bad = vec![RowSummary { len: 2, all_finite: false, nonzero: 1 }, RowSummary { len: 0, all_finite: true, nonzero: 0 }];
    assert_eq!(
        profile_parameter_rows(&bad).unwrap_err(),
        SdkError::InvalidArgument("parameters must be finite".to_string())
    );
    let empty_row = vec![RowSummary { len: 0, all_finite: true, nonzero: 0 }];
    assert_eq!(profile_parameter_rows(&empty_row).unwrap_err(), SdkError::EmptyFeatures);
    let huge = vec![RowSummary { len: 16_777_217, all_finite: true, nonzero: 0 }];
    assert_eq!(
        profile_parameter_rows(&huge).unwrap_err(),
        SdkError::DimensionLimit { actual: 16_777_217, max: 16_777_216 }
    );
}

#[test]
fn benchmark_counts() {
    let config = BenchmarkConfig::default();
    assert_eq!(config, BenchmarkConfig { warmup_runs: 2, measured_runs: 10 });
    assert_eq!(measured_predictions(3, config).unwrap(), 30);
    assert_eq!(measured_predictions(0, config).unwrap_err(), SdkError::EmptyDataset);
    let none = BenchmarkConfig { warmup_runs: 0, measured_runs: 0 };
    assert_eq!(
        measured_predictions(3, none).unwrap_err(),
        SdkError::InvalidArgument("measured_runs must be positive".to_string())
    );
    assert_eq!(measured_predictions(usize::MAX, config).unwrap(), usize::MAX);
    assert_eq!(benchmark_inferences(4, 5).unwrap(), 20);
    assert_eq!(
        benchmark_inferences(usize::MAX, 2).unwrap_err(),
        SdkError::InvalidArgument("benchmark inference count overflow".to_string())
    );
}

#[test]
fn matvec_shapes() {
    assert_eq!(CpuBackend.kind(), BackendKind::Cpu);
    assert!(check_matvec_shape(&[3, 3], 3).is_ok());
    assert_eq!(
        check_matvec_shape(&[], 3).unwrap_err(),
        SdkError::InvalidArgument("matrix and vector must be non-empty".to_string())
    );
    assert_eq!(
        check_matvec_shape(&[3, 5, 2], 3).unwrap_err(),
        SdkError::DimensionMismatch { expected: 3, actual: 5 }
    );
}

#[test]
fn service_policies() {
    assert!(discloses_detail(&SdkError::DimensionMismatch { expected: 1, actual: 2 }));
    assert!(discloses_detail(&SdkError::DimensionLimit { actual: 1, max: 0 }));
    assert!(!discloses_detail(&SdkError::NotFitted));
    assert_eq!(permit_count(0), 1);
    assert_eq!(permit_count(32), 32);
}

#[test]
fn next_arg_reports_missing_values() {
    assert_eq!(next_arg(Some("x".to_string()), "--seed").unwrap(), "x");
    assert_eq!(next_arg(None, "--seed").unwrap_err(), "missing value for --seed");
}
