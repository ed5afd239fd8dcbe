use anderion_sigint_ml::artifact::{verify_payload, ArtifactManifest, ArtifactPolicy};
use anderion_sigint_ml::error::SdkError;
use anderion_sigint_ml::io::{constant_time_eq, hex_encode, hex_nibble};
use anderion_sigint_ml::iq::{
    coarse_band, fft_source_index, signed_frequency_bin, validate_extraction_shape, validate_sample_count, IqFeatureSchema,
    ReferenceIqFeatureExtractor,
};
use anderion_sigint_ml::ontology::ConsistencyReport;
use anderion_sigint_ml::verification::{
    hash_context, PolicyWords, ResultWords, ThresholdOutcomes,
    decide, decision_result_digest, input_digest, policy_digest, Digest32, DeterministicVerifier,
    ReplayStatus, ResultCertificate, ResultCertificateWire, VerificationContext,
    VerificationDecision, CERTIFICATE_ALGORITHM_VERSION,
};
use sha2::{Digest, Sha256};

fn framed(bytes: &[u8]) -> Vec<u8> {
    let mut out = (bytes.len() as u64).to_le_bytes().to_vec();
    out.extend_from_slice(bytes);
    out
}

fn wire_of(c: &ResultCertificate) -> ResultCertificateWire {
    ResultCertificateWire {
        algorithm_version: c.algorithm_version(),
        input_digest: c.input_digest(),
        context_digest: c.context_digest(),
        policy_digest: c.policy_digest(),
        exact_result_digest: c.exact_result_digest(),
        decision_digest: c.decision_digest(),
        decision: c.decision(),
        ontology_valid: c.ontology_valid(),
        ontology_violation_count: c.ontology_violation_count(),
        self_digest: c.self_digest(),
    }
}

fn digest(byte: u8) -> Digest32 {
    Digest32::from_bytes(&[byte; 32])
}

fn certificate(exact: u8, decision: VerificationDecision, ontology_valid: bool) -> ResultCertificate {
    ResultCertificate::seal(7, digest(1), digest(2), digest(3), digest(exact), digest(5), decision, ontology_valid, 0)
}

#[test]
fn hex_helpers() {
    assert_eq!(hex_encode(&[0x00, 0xff, 0x10]), "00ff10");
    assert_eq!(hex_nibble(b'a'), Some(10));
    assert_eq!(hex_nibble(b'F'), Some(15));
    assert_eq!(hex_nibble(b'g'), None);
    assert!(constant_time_eq(b"abc", b"abc"));
    assert!(!constant_time_eq(b"abc", b"abd"));
    assert!(!constant_time_eq(b"abc", b"ab"));
}

#[test]
fn digest_hex_round_trip() {
    let d = Digest32::from_hex(&"aB".repeat(32)).unwrap();
    assert_eq!(d.as_bytes(), &[0xab; 32]);
    assert_eq!(d.to_hex(), "ab".repeat(32));
    let abc = Digest32::from_bytes(b"abc");
    assert_eq!(abc.to_hex(), "ba7816bf8f01cfea414140de5dae2223b00361a396177a9cb410ff61f20015ad");
    let back = Digest32::from_hex(&abc.to_hex()).unwrap();
    assert_eq!(back.as_bytes(), abc.as_bytes());
    assert_eq!(
        Digest32::from_hex("abc").unwrap_err(),
        SdkError::InvalidArgument("SHA-256 hex digest must contain 64 characters".to_string())
    );
    assert_eq!(
        Digest32::from_hex(&"zz".repeat(32)).unwrap_err(),
        SdkError::InvalidArgument("invalid SHA-256 hex digest".to_string())
    );
}

#[test]
fn replay_statuses() {
    let original = certificate(4, VerificationDecision::Accept, true);
    assert_eq!(DeterministicVerifier::compare_replay(&original, &certificate(4, VerificationDecision::Accept, true)), ReplayStatus::Exact);
    assert_eq!(
        DeterministicVerifier::compare_replay(&original, &certificate(9, VerificationDecision::Accept, true)),
        ReplayStatus::DecisionEquivalent
    );
    assert_eq!(
        DeterministicVerifier::compare_replay(&original, &certificate(9, VerificationDecision::Review, true)),
        ReplayStatus::NonReproducible
    );
    assert_eq!(
        DeterministicVerifier::compare_replay(&original, &certificate(9, VerificationDecision::Accept, false)),
        ReplayStatus::NonReproducible
    );
}

#[test]
fn sealed_certificates_keep_fields() {
    let c = certificate(4, VerificationDecision::Abstain, true);
    assert_eq!(c.algorithm_version(), 7);
    assert_eq!(c.decision(), VerificationDecision::Abstain);
    assert!(c.ontology_valid());
    assert_eq!(c.ontology_violation_count(), 0);
    assert_eq!(c.exact_result_digest().as_bytes(), digest(4).as_bytes());
    let other = certificate(5, VerificationDecision::Abstain, true);
    assert_ne!(c.self_digest().as_bytes(), other.self_digest().as_bytes());
}

#[test]
fn inconsistent_results_are_not_accepted() {
    assert_ne!(decide(true, false, false, false, false, false), VerificationDecision::Accept);
    assert_eq!(decide(false, true, false, false, false, false), VerificationDecision::Accept);
}

#[test]
fn input_digest_depends_on_inputs() {
    let a = input_digest("obs", 1, &[1, 2, 3]);
    let b = input_digest("obs", 2, &[1, 2, 3]);
    let c = input_digest("obs", 1, &[1, 2, 4]);
    assert_eq!(a.as_bytes(), input_digest("obs", 1, &[1, 2, 3]).as_bytes());
    assert_ne!(a.as_bytes(), b.as_bytes());
    assert_ne!(a.as_bytes(), c.as_bytes());
}

#[test]
fn context_versions_are_checked() {
    let ok = VerificationContext::new(digest(1), digest(2), "onto-1".to_string(), "pipe-1".to_string(), 42).unwrap();
    assert_eq!(ok.ontology_version(), "onto-1");
    assert_eq!(ok.pipeline_version(), "pipe-1");
    assert_eq!(ok.seed(), 42);
    assert_eq!(
        VerificationContext::new(digest(1), digest(2), " ".to_string(), "p".to_string(), 0).unwrap_err(),
        SdkError::InvalidArgument("ontology_version must not be empty".to_string())
    );
}

#[test]
fn artifact_checks_in_order() {
    let payload = b"model-bytes";
    let manifest = ArtifactManifest::for_payload("m".to_string(), "prototype".to_string(), 1, payload).unwrap();
    let policy = ArtifactPolicy::default();
    assert!(verify_payload(&manifest, payload, &policy).is_ok());
    assert_eq!(verify_payload(&manifest, b"model-bytez", &policy).unwrap_err(), SdkError::DigestMismatch);
    assert_eq!(
        verify_payload(&manifest, b"short", &policy).unwrap_err(),
        SdkError::PayloadLengthMismatch { expected: 11, actual: 5 }
    );
    let mut other = manifest.clone();
    other.schema_version = 2;
    assert_eq!(
        verify_payload(&other, payload, &policy).unwrap_err(),
        SdkError::SchemaMismatch { expected: 1, actual: 2 }
    );
    let mut odd = manifest.clone();
    odd.model_type = "mystery".to_string();
    assert_eq!(
        verify_payload(&odd, payload, &policy).unwrap_err(),
        SdkError::InvalidArgument("model type 'mystery' is not allowed".to_string())
    );
    assert!(ArtifactManifest::for_payload(" ".to_string(), "t".to_string(), 1, payload).is_err());
}

#[test]
fn iq_shapes_and_bands() {
    assert_eq!(validate_sample_count(0).unwrap_err(), SdkError::EmptyFeatures);
    assert_eq!(
        validate_sample_count(5).unwrap_err(),
        SdkError::InvalidArgument("I/Q capture must contain at least MIN_IQ_SAMPLES samples".to_string())
    );
    assert_eq!(
        validate_sample_count(15).unwrap_err(),
        SdkError::InvalidArgument("I/Q capture must contain at least MIN_IQ_SAMPLES samples".to_string())
    );
    assert!(validate_sample_count(16).is_ok());
    assert!(validate_sample_count(16_384).is_ok());
    assert_eq!(validate_sample_count(16_385).unwrap_err(), SdkError::DimensionLimit { actual: 16_385, max: 16_384 });
    assert_eq!(
        validate_extraction_shape(8, 4).unwrap_err(),
        SdkError::InvalidArgument("I/Q capture must contain at least MIN_IQ_SAMPLES samples".to_string())
    );
    assert_eq!(validate_extraction_shape(16, 32).unwrap_err(), SdkError::DimensionLimit { actual: 32, max: 16 });
    assert!(validate_extraction_shape(16, 16).is_ok());
    assert_eq!(fft_source_index(8, 16), 0);
    assert_eq!(fft_source_index(0, 16), 8);
    assert_eq!(coarse_band(8, 16, 4), 2);
    assert_eq!(coarse_band(8, 17, 5), 2);
    let x = ReferenceIqFeatureExtractor::new(16).unwrap();
    assert_eq!(x.schema(), IqFeatureSchema::V2FullBandShifted);
    assert_eq!(x.feature_dim(), 28);
    assert_eq!(ReferenceIqFeatureExtractor::legacy_v1(4).unwrap().schema(), IqFeatureSchema::V1NearDc);
    assert_eq!(ReferenceIqFeatureExtractor::new(65).unwrap_err(), SdkError::DimensionLimit { actual: 65, max: 64 });
}

#[test]
fn wire_certificates_are_checked() {
    let sealed = ResultCertificate::seal(
        CERTIFICATE_ALGORITHM_VERSION,
        digest(1),
        digest(2),
        digest(3),
        digest(4),
        digest(5),
        VerificationDecision::Review,
        false,
        2,
    );
    let back = ResultCertificate::from_wire(wire_of(&sealed)).unwrap();
    assert_eq!(back.self_digest().as_bytes(), sealed.self_digest().as_bytes());
    assert_eq!(back.decision(), VerificationDecision::Review);
    assert_eq!(back.ontology_violation_count(), 2);
    assert_eq!(
        DeterministicVerifier::compare_replay(&sealed, &back),
        ReplayStatus::Exact
    );

    let mut edited = wire_of(&sealed);
    edited.decision = VerificationDecision::Accept;
    assert_eq!(ResultCertificate::from_wire(edited).unwrap_err(), SdkError::DigestMismatch);

    let mut recounted = wire_of(&sealed);
    recounted.ontology_violation_count = 0;
    assert_eq!(ResultCertificate::from_wire(recounted).unwrap_err(), SdkError::DigestMismatch);

    let old = certificate(4, VerificationDecision::Accept, true);
    assert_eq!(
        ResultCertificate::from_wire(wire_of(&old)).unwrap_err(),
        SdkError::SchemaMismatch { expected: CERTIFICATE_ALGORITHM_VERSION, actual: 7 }
    );
}

#[test]
fn digests_hash_their_framed_messages() {
    let mut input = framed(b"anderion-sigint-input-v1");
    input.extend(framed(b"obs-1"));
    input.extend(9_u64.to_le_bytes());
    input.extend(2_u64.to_le_bytes());
    input.extend(0x3f80_0000_u32.to_le_bytes());
    input.extend(0_u32.to_le_bytes());
    let expected: [u8; 32] = Sha256::digest(&input).into();
    assert_eq!(input_digest("obs-1", 9, &[0x3f80_0000, 0]).as_bytes(), &expected);

    let mut policy = framed(b"anderion-sigint-verification-policy-v1");
    policy.extend(0x3eb3_3333_u32.to_le_bytes());
    policy.extend(0x3f73_3333_u32.to_le_bytes());
    policy.push(0);
    policy.extend(10_000_u32.to_le_bytes());
    policy.push(1);
    let expected: [u8; 32] = Sha256::digest(&policy).into();
    assert_eq!(
        policy_digest(0x3eb3_3333, 0x3f73_3333, None, 10_000, true).as_bytes(),
        &expected
    );

    let mut decision = framed(b"anderion-sigint-decision-v1");
    decision.extend(framed(b"bpsk"));
    decision.extend(9_000_u64.to_le_bytes());
    decision.push(0);
    decision.push(1);
    decision.extend(120_u64.to_le_bytes());
    decision.extend(300_u64.to_le_bytes());
    let expected: [u8; 32] = Sha256::digest(&decision).into();
    assert_eq!(
        decision_result_digest("bpsk", 9_000, false, Some(120), 300).as_bytes(),
        &expected
    );
}

#[test]
fn signed_bins_stay_in_the_half_band() {
    assert_eq!(signed_frequency_bin(0, 8), 0);
    assert_eq!(signed_frequency_bin(3, 8), 3);
    assert_eq!(signed_frequency_bin(4, 8), -4);
    assert_eq!(signed_frequency_bin(7, 8), -1);
    assert_eq!(signed_frequency_bin(4, 9), 4);
    assert_eq!(signed_frequency_bin(5, 9), -4);
    assert_eq!(signed_frequency_bin(8, 9), -1);
}

fn result_words(labels: &[&str]) -> ResultWords {
    ResultWords {
        labels: labels.iter().map(|l| l.to_string()).collect(),
        probability_bits: labels.iter().map(|_| 0x3f00_0000).collect(),
        unknown: false,
        anomaly_score_bits: None,
        embedding_bits: vec![1, 2, 3],
        uncertainty_bits: 0x3e80_0000,
        top_probability_fixed: 5_000,
        anomaly_score_fixed: None,
        uncertainty_fixed: 2_500,
    }
}

#[test]
fn certificates_bind_their_inputs() {
    let context =
        VerificationContext::new(digest(1), digest(2), "onto".to_string(), "pipe".to_string(), 7).unwrap();
    let policy = PolicyWords {
        min_class_confidence_bits: 0x3eb3_3333,
        max_uncertainty_bits: 0x3f73_3333,
        max_anomaly_score_bits: None,
        fixed_point_scale: 10_000,
        requires_consistency: true,
    };
    let outcomes = ThresholdOutcomes {
        uncertainty_above_limit: false,
        confidence_below_minimum: false,
        anomaly_above_limit: false,
    };
    let valid = ConsistencyReport::valid();
    let c = DeterministicVerifier::certify("obs", 9, &[1, 2], &context, &policy, &result_words(&["bpsk", "qpsk"]), outcomes, &valid)
        .unwrap();
    assert_eq!(c.algorithm_version(), CERTIFICATE_ALGORITHM_VERSION);
    assert_eq!(c.decision(), VerificationDecision::Accept);
    assert!(c.ontology_valid());
    assert_eq!(c.ontology_violation_count(), 0);
    assert_eq!(c.input_digest().as_bytes(), input_digest("obs", 9, &[1, 2]).as_bytes());
    assert_eq!(c.context_digest().as_bytes(), hash_context(&context).as_bytes());
    assert_eq!(
        c.policy_digest().as_bytes(),
        policy_digest(0x3eb3_3333, 0x3f73_3333, None, 10_000, true).as_bytes()
    );
    assert_eq!(
        c.decision_digest().as_bytes(),
        decision_result_digest("bpsk", 5_000, false, None, 2_500).as_bytes()
    );
    let again = DeterministicVerifier::certify("obs", 9, &[1, 2], &context, &policy, &result_words(&["bpsk", "qpsk"]), outcomes, &valid)
        .unwrap();
    assert_eq!(DeterministicVerifier::compare_replay(&c, &again), ReplayStatus::Exact);
    assert_eq!(ResultCertificate::from_wire(wire_of(&c)).unwrap().self_digest().as_bytes(), c.self_digest().as_bytes());

    let broken = ConsistencyReport::from_violation("cardinality".to_string(), "too many".to_string()).unwrap();
    let reviewed = DeterministicVerifier::certify("obs", 9, &[1, 2], &context, &policy, &result_words(&["bpsk"]), outcomes, &broken)
        .unwrap();
    assert_eq!(reviewed.decision(), VerificationDecision::Review);
    assert!(!reviewed.ontology_valid());
    assert_eq!(reviewed.ontology_violation_count(), 1);
    assert_eq!(reviewed.input_digest().as_bytes(), c.input_digest().as_bytes());
    assert_eq!(DeterministicVerifier::compare_replay(&c, &reviewed), ReplayStatus::NonReproducible);

    assert_eq!(
        DeterministicVerifier::certify("obs", 9, &[1, 2], &context, &policy, &result_words(&[]), outcomes, &valid)
            .unwrap_err(),
        SdkError::InvalidArgument("prediction must contain class scores".to_string())
    );
}
