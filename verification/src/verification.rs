use vstd::prelude::*;
use vstd::string::*;
use vstd::utf8::*;

use crate::error::SdkError;
use crate::hashing::{
    byte_range, flag_byte, framed, le_bytes, lemma_framed_front, lemma_le_bytes_injective, lemma_le_bytes_len,
    lemma_split_front, lemma_u32_fits_four_bytes, lemma_u64_fits_eight_bytes, push_bytes, push_flag, push_framed,
    push_le, sha256, sha256_of,
};
use crate::io::{hex_digit, hex_encode, hex_nibble, hex_text, hex_value, lower_byte};
use crate::ontology::{ConsistencyReport, ViolationView};
use crate::text::{text_error, text_ok, validate_text};

verus! {

pub const MAX_CONTEXT_TEXT_BYTES: usize = 256;
pub const MAX_FIXED_POINT_SCALE: u32 = 1_000_000_000;
pub const CERTIFICATE_ALGORITHM_VERSION: u32 = 2;

/// A SHA-256 digest.
#[derive(Debug, Clone, Copy, PartialEq, Eq, PartialOrd, Ord)]
pub struct Digest32([u8; 32]);

impl View for Digest32 {
    type V = Seq<u8>;

    closed spec fn view(&self) -> Seq<u8> {
        self.0@
    }
}

/// The digest bytes that a 64-digit hexadecimal text stands for, or `None`
/// when the text has another length or a non-hexadecimal byte.
pub open spec fn hex_digest_value(text: Seq<u8>) -> Option<Seq<u8>> {
    if text.len() != 64 {
        None
    } else if exists|i: int| 0 <= i < 64 && hex_value(#[trigger] text[i]) is None {
        None
    } else {
        Some(
            Seq::new(
                32,
                |k: int| (hex_value(text[2 * k])->0 * 16 + hex_value(text[2 * k + 1])->0) as u8,
            ),
        )
    }
}

impl Digest32 {
    /// The SHA-256 digest of `bytes`.
    pub fn from_bytes(bytes: &[u8]) -> (r: Self)
        ensures
            r@ == sha256_of(bytes@),
    {
        Digest32(sha256(bytes))
    }

    /// Parses 64 hexadecimal digits (either case).
    pub fn from_hex(value: &str) -> (r: Result<Self, SdkError>)
        ensures
            r is Ok <==> hex_digest_value(value.spec_bytes()) is Some,
            r matches Ok(d) ==> d@ == hex_digest_value(value.spec_bytes())->0,
            r matches Err(e) ==> e matches SdkError::InvalidArgument(m) && (if value.spec_bytes().len()
                != 64 {
                m@ == "SHA-256 hex digest must contain 64 characters"@
            } else {
                m@ == "invalid SHA-256 hex digest"@
            }),
    {
        let bytes = value.as_bytes();
        if bytes.len() != 64 {
            return Err(
                SdkError::InvalidArgument(
                    String::from_str("SHA-256 hex digest must contain 64 characters"),
                ),
            );
        }
        let mut output = [0u8; 32];
        let mut index: usize = 0;
        while index < 32
            invariant
                index <= 32,
                bytes@ == value.spec_bytes(),
                bytes@.len() == 64,
                forall|i: int| 0 <= i < 2 * index ==> hex_value(#[trigger] bytes@[i]) is Some,
                forall|k: int|
                    0 <= k < index ==> output@[k] == (hex_value(bytes@[2 * k])->0 * 16
                        + hex_value(bytes@[2 * k + 1])->0) as u8,
            decreases 32 - index,
        {
            let high = match hex_nibble(bytes[index * 2]) {
                Some(v) => v,
                None => {
                    return Err(
                        SdkError::InvalidArgument(String::from_str("invalid SHA-256 hex digest")),
                    );
                },
            };
            let low = match hex_nibble(bytes[index * 2 + 1]) {
                Some(v) => v,
                None => {
                    return Err(
                        SdkError::InvalidArgument(String::from_str("invalid SHA-256 hex digest")),
                    );
                },
            };
            output[index] = high * 16 + low;
            index += 1;
        }
        let d = Digest32(output);
        proof {
            assert(d@ =~= hex_digest_value(value.spec_bytes())->0);
        }
        Ok(d)
    }

    /// The 32 digest bytes.
    pub fn as_bytes(&self) -> (r: &[u8; 32])
        ensures
            r@ == self@,
    {
        &self.0
    }

    /// Lowercase hexadecimal text of the digest.
    pub fn to_hex(&self) -> (r: String)
        ensures
            r@ == hex_text(self@),
    {
        hex_encode(&self.0)
    }
}

/// Whether two digests hold the same bytes.
pub fn digest_eq(a: &Digest32, b: &Digest32) -> (r: bool)
    ensures
        r == (a@ == b@),
{
    let mut i: usize = 0;
    while i < 32
        invariant
            i <= 32,
            forall|k: int| 0 <= k < i ==> a.0@[k] == b.0@[k],
        decreases 32 - i,
    {
        if a.0[i] != b.0[i] {
            return false;
        }
        i += 1;
    }
    proof {
        assert(a.0@ =~= b.0@);
    }
    true
}

/// Decoding the lowercase hexadecimal text of a digest gives the digest back.
pub proof fn lemma_hex_round_trip(d: Seq<u8>)
    requires
        d.len() == 32,
    ensures
        hex_digest_value(encode_utf8(hex_text(d))) == Some(d),
        hex_text(d).len() == 64,
        forall|i: int|
            0 <= i < 64 ==> ('0' <= #[trigger] hex_text(d)[i] <= '9' || 'a' <= hex_text(d)[i] <= 'f'),
{
    let t = hex_text(d);
    assert forall|i: int| 0 <= i < t.len() implies '\0' <= #[trigger] t[i] <= '\u{7f}' by {
        let b = d[i / 2];
        assert(b / 16 < 16 && b % 16 < 16);
    }
    is_ascii_chars_encode_utf8(t);
    let e = encode_utf8(t);
    assert forall|i: int| 0 <= i < 64 implies hex_value(#[trigger] e[i]) is Some && (if i % 2
        == 0 {
        hex_value(e[i])->0 == d[i / 2] / 16
    } else {
        hex_value(e[i])->0 == d[i / 2] % 16
    }) by {
        assert(t[i] as u8 == e[i]);
        let b = d[i / 2];
        assert(b / 16 < 16 && b % 16 < 16);
    }
    let v = hex_digest_value(e)->0;
    assert forall|k: int| 0 <= k < 32 implies v[k] == d[k] by {
        assert(hex_value(e[2 * k])->0 == d[(2 * k) / 2] / 16);
        assert(hex_value(e[2 * k + 1])->0 == d[(2 * k + 1) / 2] % 16);
        assert((2 * k) / 2 == k);
        assert((2 * k + 1) / 2 == k);
    }
    assert(v =~= d);
}

/// Parsing hexadecimal text and encoding the digest again gives the text
/// back in lowercase.
pub proof fn lemma_hex_reencodes_lowercase(text: Seq<u8>)
    requires
        hex_digest_value(text) is Some,
    ensures
        encode_utf8(hex_text(hex_digest_value(text)->0)) == text.map_values(|b: u8| lower_byte(b)),
{
    let d = hex_digest_value(text)->0;
    let t = hex_text(d);
    assert forall|i: int| 0 <= i < t.len() implies '\0' <= #[trigger] t[i] <= '\u{7f}' by {
        let b = d[i / 2];
        assert(b / 16 < 16 && b % 16 < 16);
    }
    is_ascii_chars_encode_utf8(t);
    let e = encode_utf8(t);
    let l = text.map_values(|b: u8| lower_byte(b));
    assert forall|i: int| 0 <= i < 64 implies #[trigger] e[i] == l[i] by {
        let k = i / 2;
        assert(0 <= k < 32);
        assert(2 * k == i || 2 * k + 1 == i);
        let hi = hex_value(text[2 * k])->0;
        let lo = hex_value(text[2 * k + 1])->0;
        assert(hex_value(text[2 * k]) is Some && hex_value(text[2 * k + 1]) is Some);
        assert(hi < 16 && lo < 16);
        assert(d[k] == (hi * 16 + lo) as u8);
        assert(d[k] / 16 == hi && d[k] % 16 == lo) by (nonlinear_arith)
            requires
                d[k] == (hi * 16 + lo) as u8,
                hi < 16,
                lo < 16,
        ;
        assert(t[i] as u8 == e[i]);
        let v = if i % 2 == 0 { hi } else { lo };
        assert(hex_value(text[i]) == Some(v));
        assert(t[i] == hex_digit(v as nat));
    }
    assert(e =~= l);
}

/// What a verification context binds.
pub struct ContextView {
    pub model_digest: Seq<u8>,
    pub config_digest: Seq<u8>,
    pub ontology_version: Seq<char>,
    pub pipeline_version: Seq<char>,
    pub seed: u64,
}

/// Model and configuration digests, ontology and pipeline versions and seed
/// under which a result is produced.
#[derive(Debug, Clone)]
pub struct VerificationContext {
    model_digest: Digest32,
    config_digest: Digest32,
    ontology_version: String,
    pipeline_version: String,
    seed: u64,
}

impl View for VerificationContext {
    type V = ContextView;

    closed spec fn view(&self) -> ContextView {
        ContextView {
            model_digest: self.model_digest@,
            config_digest: self.config_digest@,
            ontology_version: self.ontology_version@,
            pipeline_version: self.pipeline_version@,
            seed: self.seed,
        }
    }
}

/// The context texts are bounded and not blank.
pub open spec fn context_text_ok(s: Seq<char>) -> bool {
    text_ok(s, MAX_CONTEXT_TEXT_BYTES as nat)
}

impl VerificationContext {
    /// A context whose version texts are not blank and at most 256 bytes.
    pub fn new(
        model_digest: Digest32,
        config_digest: Digest32,
        ontology_version: String,
        pipeline_version: String,
        seed: u64,
    ) -> (r: Result<Self, SdkError>)
        ensures
            r is Ok <==> context_text_ok(ontology_version@) && context_text_ok(pipeline_version@),
            r matches Ok(c) ==> c@ == (ContextView {
                model_digest: model_digest@,
                config_digest: config_digest@,
                ontology_version: ontology_version@,
                pipeline_version: pipeline_version@,
                seed,
            }),
            r matches Err(e) ==> if !context_text_ok(ontology_version@) {
                text_error("ontology_version"@, ontology_version@, MAX_CONTEXT_TEXT_BYTES, e)
            } else {
                text_error("pipeline_version"@, pipeline_version@, MAX_CONTEXT_TEXT_BYTES, e)
            },
    {
        validate_context_text("ontology_version", ontology_version.as_str())?;
        validate_context_text("pipeline_version", pipeline_version.as_str())?;
        Ok(VerificationContext { model_digest, config_digest, ontology_version, pipeline_version, seed })
    }

    pub fn model_digest(&self) -> (r: Digest32)
        ensures
            r@ == self@.model_digest,
    {
        self.model_digest
    }

    pub fn config_digest(&self) -> (r: Digest32)
        ensures
            r@ == self@.config_digest,
    {
        self.config_digest
    }

    pub fn ontology_version(&self) -> (r: &str)
        ensures
            r@ == self@.ontology_version,
    {
        self.ontology_version.as_str()
    }

    pub fn pipeline_version(&self) -> (r: &str)
        ensures
            r@ == self@.pipeline_version,
    {
        self.pipeline_version.as_str()
    }

    pub fn seed(&self) -> (r: u64)
        ensures
            r == self@.seed,
    {
        self.seed
    }
}

fn validate_context_text(field: &str, value: &str) -> (r: Result<(), SdkError>)
    ensures
        r is Ok <==> context_text_ok(value@),
        r matches Err(e) ==> text_error(field@, value@, MAX_CONTEXT_TEXT_BYTES, e),
{
    validate_text(field, value, MAX_CONTEXT_TEXT_BYTES)
}

/// Revalidates the version texts of a context.
pub fn validate_context(context: &VerificationContext) -> (r: Result<(), SdkError>)
    ensures
        r is Ok <==> context_text_ok(context@.ontology_version) && context_text_ok(
            context@.pipeline_version,
        ),
{
    validate_context_text("ontology_version", context.ontology_version())?;
    validate_context_text("pipeline_version", context.pipeline_version())?;
    Ok(())
}

/// Checks a fixed-point scale: it must lie in `1..=1_000_000_000`.
pub fn validate_scale(scale: u32) -> (r: Result<(), SdkError>)
    ensures
        r is Ok <==> 1 <= scale <= MAX_FIXED_POINT_SCALE,
        r matches Err(e) ==> e matches SdkError::InvalidArgument(m) && m@
            == "fixed_point_scale must be in 1..=1_000_000_000"@,
{
    if scale == 0 || scale > MAX_FIXED_POINT_SCALE {
        return Err(
            SdkError::InvalidArgument(
                String::from_str("fixed_point_scale must be in 1..=1_000_000_000"),
            ),
        );
    }
    Ok(())
}

pub open spec fn context_domain() -> Seq<u8> {
    "anderion-sigint-context-v1".spec_bytes()
}

/// The byte message whose SHA-256 digest identifies a context.
pub open spec fn context_message(
    model: Seq<u8>,
    config: Seq<u8>,
    ontology: Seq<u8>,
    pipeline: Seq<u8>,
    seed: u64,
) -> Seq<u8> {
    framed(context_domain()) + model + config + framed(ontology) + framed(pipeline) + le_bytes(
        seed as nat,
        8,
    )
}

/// The digest that binds a context into a certificate.
pub fn hash_context(context: &VerificationContext) -> (r: Digest32)
    ensures
        r@ == sha256_of(
            context_message(
                context@.model_digest,
                context@.config_digest,
                encode_utf8(context@.ontology_version),
                encode_utf8(context@.pipeline_version),
                context@.seed,
            ),
        ),
{
    let mut buf: Vec<u8> = Vec::new();
    push_framed(&mut buf, "anderion-sigint-context-v1".as_bytes());
    push_bytes(&mut buf, context.model_digest.as_bytes());
    push_bytes(&mut buf, context.config_digest.as_bytes());
    push_framed(&mut buf, context.ontology_version.as_str().as_bytes());
    push_framed(&mut buf, context.pipeline_version.as_str().as_bytes());
    push_le(&mut buf, context.seed, 8);
    proof {
        assert(buf@ =~= context_message(
            context@.model_digest,
            context@.config_digest,
            encode_utf8(context@.ontology_version),
            encode_utf8(context@.pipeline_version),
            context@.seed,
        ));
    }
    Digest32(sha256(buf.as_slice()))
}

/// The outcome that a verification policy assigns to a result.
#[derive(Debug, Clone, Copy, PartialEq, Eq, Structural)]
pub enum VerificationDecision {
    Accept,
    Abstain,
    Review,
    Reject,
}

/// How a replayed result compares with the original certificate.
#[derive(Debug, Clone, Copy, PartialEq, Eq, Structural)]
pub enum ReplayStatus {
    Exact,
    DecisionEquivalent,
    NonReproducible,
}

/// The fields of a result certificate.
pub struct CertificateView {
    pub algorithm_version: u32,
    pub input_digest: Seq<u8>,
    pub context_digest: Seq<u8>,
    pub policy_digest: Seq<u8>,
    pub exact_result_digest: Seq<u8>,
    pub decision_digest: Seq<u8>,
    pub decision: VerificationDecision,
    pub ontology_valid: bool,
    pub ontology_violation_count: usize,
    pub self_digest: Seq<u8>,
}

/// Deterministic evidence for one verified result, with a digest over its own
/// fields. The digest is integrity evidence, not a signature.
#[derive(Debug, Clone)]
pub struct ResultCertificate {
    algorithm_version: u32,
    input_digest: Digest32,
    context_digest: Digest32,
    policy_digest: Digest32,
    exact_result_digest: Digest32,
    decision_digest: Digest32,
    decision: VerificationDecision,
    ontology_valid: bool,
    ontology_violation_count: usize,
    self_digest: Digest32,
}

impl View for ResultCertificate {
    type V = CertificateView;

    closed spec fn view(&self) -> CertificateView {
        CertificateView {
            algorithm_version: self.algorithm_version,
            input_digest: self.input_digest@,
            context_digest: self.context_digest@,
            policy_digest: self.policy_digest@,
            exact_result_digest: self.exact_result_digest@,
            decision_digest: self.decision_digest@,
            decision: self.decision,
            ontology_valid: self.ontology_valid,
            ontology_violation_count: self.ontology_violation_count,
            self_digest: self.self_digest@,
        }
    }
}

/// A certificate as read from an untrusted source, before its digest is
/// checked.
#[derive(Debug, Clone)]
pub struct ResultCertificateWire {
    pub algorithm_version: u32,
    pub input_digest: Digest32,
    pub context_digest: Digest32,
    pub policy_digest: Digest32,
    pub exact_result_digest: Digest32,
    pub decision_digest: Digest32,
    pub decision: VerificationDecision,
    pub ontology_valid: bool,
    pub ontology_violation_count: usize,
    pub self_digest: Digest32,
}

impl View for ResultCertificateWire {
    type V = CertificateView;

    open spec fn view(&self) -> CertificateView {
        CertificateView {
            algorithm_version: self.algorithm_version,
            input_digest: self.input_digest@,
            context_digest: self.context_digest@,
            policy_digest: self.policy_digest@,
            exact_result_digest: self.exact_result_digest@,
            decision_digest: self.decision_digest@,
            decision: self.decision,
            ontology_valid: self.ontology_valid,
            ontology_violation_count: self.ontology_violation_count,
            self_digest: self.self_digest@,
        }
    }
}

/// The tag byte that stands for a decision in a certificate digest.
pub open spec fn decision_tag_value(d: VerificationDecision) -> u8 {
    match d {
        VerificationDecision::Accept => 0,
        VerificationDecision::Abstain => 1,
        VerificationDecision::Review => 2,
        VerificationDecision::Reject => 3,
    }
}

pub open spec fn certificate_domain() -> Seq<u8> {
    "anderion-sigint-certificate-v2".spec_bytes()
}

/// The byte message that a certificate's own digest covers: every field but
/// the digest itself.
pub open spec fn certificate_message(v: CertificateView) -> Seq<u8> {
    framed(certificate_domain()) + le_bytes(v.algorithm_version as nat, 4) + v.input_digest
        + v.context_digest + v.policy_digest + v.exact_result_digest + v.decision_digest + seq![
        decision_tag_value(v.decision),
    ] + flag_byte(v.ontology_valid) + le_bytes(v.ontology_violation_count as nat, 8)
}

/// A certificate is sealed when its own digest covers its other fields.
pub open spec fn sealed(v: CertificateView) -> bool {
    v.self_digest == sha256_of(certificate_message(v))
}

/// The replay verdict for two certificates.
pub open spec fn replay_status(o: CertificateView, r: CertificateView) -> ReplayStatus {
    if o.algorithm_version != r.algorithm_version || o.input_digest != r.input_digest
        || o.context_digest != r.context_digest || o.policy_digest != r.policy_digest
        || o.decision != r.decision || o.ontology_valid != r.ontology_valid
        || o.ontology_violation_count != r.ontology_violation_count {
        ReplayStatus::NonReproducible
    } else if o.exact_result_digest == r.exact_result_digest {
        ReplayStatus::Exact
    } else if o.decision_digest == r.decision_digest {
        ReplayStatus::DecisionEquivalent
    } else {
        ReplayStatus::NonReproducible
    }
}

/// The result of reading a certificate from its wire form.
pub open spec fn wire_accepted(w: CertificateView) -> bool {
    w.algorithm_version == CERTIFICATE_ALGORITHM_VERSION && sealed(w)
}

fn decision_tag(decision: VerificationDecision) -> (r: u8)
    ensures
        r == decision_tag_value(decision),
{
    match decision {
        VerificationDecision::Accept => 0,
        VerificationDecision::Abstain => 1,
        VerificationDecision::Review => 2,
        VerificationDecision::Reject => 3,
    }
}

fn hash_certificate_body(
    algorithm_version: u32,
    input_digest: Digest32,
    context_digest: Digest32,
    policy_digest: Digest32,
    exact_result_digest: Digest32,
    decision_digest: Digest32,
    decision: VerificationDecision,
    ontology_valid: bool,
    ontology_violation_count: usize,
) -> (r: Digest32)
    ensures
        r@ == sha256_of(
            certificate_message(
                CertificateView {
                    algorithm_version,
                    input_digest: input_digest@,
                    context_digest: context_digest@,
                    policy_digest: policy_digest@,
                    exact_result_digest: exact_result_digest@,
                    decision_digest: decision_digest@,
                    decision,
                    ontology_valid,
                    ontology_violation_count,
                    self_digest: Seq::empty(),
                },
            ),
        ),
{
    let mut buf: Vec<u8> = Vec::new();
    push_framed(&mut buf, "anderion-sigint-certificate-v2".as_bytes());
    push_le(&mut buf, algorithm_version as u64, 4);
    push_bytes(&mut buf, input_digest.as_bytes());
    push_bytes(&mut buf, context_digest.as_bytes());
    push_bytes(&mut buf, policy_digest.as_bytes());
    push_bytes(&mut buf, exact_result_digest.as_bytes());
    push_bytes(&mut buf, decision_digest.as_bytes());
    buf.push(decision_tag(decision));
    push_flag(&mut buf, ontology_valid);
    push_le(&mut buf, ontology_violation_count as u64, 8);
    proof {
        assert(buf@ =~= certificate_message(
            CertificateView {
                algorithm_version,
                input_digest: input_digest@,
                context_digest: context_digest@,
                policy_digest: policy_digest@,
                exact_result_digest: exact_result_digest@,
                decision_digest: decision_digest@,
                decision,
                ontology_valid,
                ontology_violation_count,
                self_digest: Seq::empty(),
            },
        ));
    }
    Digest32(sha256(buf.as_slice()))
}

impl ResultCertificate {
    pub fn algorithm_version(&self) -> (r: u32)
        ensures
            r == self@.algorithm_version,
    {
        self.algorithm_version
    }

    pub fn input_digest(&self) -> (r: Digest32)
        ensures
            r@ == self@.input_digest,
    {
        self.input_digest
    }

    pub fn context_digest(&self) -> (r: Digest32)
        ensures
            r@ == self@.context_digest,
    {
        self.context_digest
    }

    pub fn policy_digest(&self) -> (r: Digest32)
        ensures
            r@ == self@.policy_digest,
    {
        self.policy_digest
    }

    pub fn exact_result_digest(&self) -> (r: Digest32)
        ensures
            r@ == self@.exact_result_digest,
    {
        self.exact_result_digest
    }

    pub fn decision_digest(&self) -> (r: Digest32)
        ensures
            r@ == self@.decision_digest,
    {
        self.decision_digest
    }

    pub fn decision(&self) -> (r: VerificationDecision)
        ensures
            r == self@.decision,
    {
        self.decision
    }

    pub fn ontology_valid(&self) -> (r: bool)
        ensures
            r == self@.ontology_valid,
    {
        self.ontology_valid
    }

    pub fn ontology_violation_count(&self) -> (r: usize)
        ensures
            r == self@.ontology_violation_count,
    {
        self.ontology_violation_count
    }

    pub fn self_digest(&self) -> (r: Digest32)
        ensures
            r@ == self@.self_digest,
    {
        self.self_digest
    }

    /// A certificate over the given fields, with its own digest computed.
    pub fn seal(
        algorithm_version: u32,
        input_digest: Digest32,
        context_digest: Digest32,
        policy_digest: Digest32,
        exact_result_digest: Digest32,
        decision_digest: Digest32,
        decision: VerificationDecision,
        ontology_valid: bool,
        ontology_violation_count: usize,
    ) -> (r: Self)
        ensures
            r@.algorithm_version == algorithm_version,
            r@.input_digest == input_digest@,
            r@.context_digest == context_digest@,
            r@.policy_digest == policy_digest@,
            r@.exact_result_digest == exact_result_digest@,
            r@.decision_digest == decision_digest@,
            r@.decision == decision,
            r@.ontology_valid == ontology_valid,
            r@.ontology_violation_count == ontology_violation_count,
            sealed(r@),
    {
        let self_digest = hash_certificate_body(
            algorithm_version,
            input_digest,
            context_digest,
            policy_digest,
            exact_result_digest,
            decision_digest,
            decision,
            ontology_valid,
            ontology_violation_count,
        );
        let r = ResultCertificate {
            algorithm_version,
            input_digest,
            context_digest,
            policy_digest,
            exact_result_digest,
            decision_digest,
            decision,
            ontology_valid,
            ontology_violation_count,
            self_digest,
        };
        proof {
            let v = r@;
            let b = CertificateView {
                algorithm_version,
                input_digest: input_digest@,
                context_digest: context_digest@,
                policy_digest: policy_digest@,
                exact_result_digest: exact_result_digest@,
                decision_digest: decision_digest@,
                decision,
                ontology_valid,
                ontology_violation_count,
                self_digest: Seq::empty(),
            };
            assert(certificate_message(v) == certificate_message(b));
        }
        r
    }

    /// Reads a certificate from its wire form: the algorithm version must be
    /// the current one and the self digest must cover the other fields.
    pub fn from_wire(wire: ResultCertificateWire) -> (r: Result<Self, SdkError>)
        ensures
            r is Ok <==> wire_accepted(wire@),
            r matches Ok(c) ==> c@ == wire@,
            r matches Ok(c) ==> c@.algorithm_version == CERTIFICATE_ALGORITHM_VERSION && sealed(c@),
            wire@.algorithm_version != CERTIFICATE_ALGORITHM_VERSION ==> r == Err::<Self, SdkError>(
                SdkError::SchemaMismatch {
                    expected: CERTIFICATE_ALGORITHM_VERSION,
                    actual: wire@.algorithm_version,
                },
            ),
            wire@.algorithm_version == CERTIFICATE_ALGORITHM_VERSION && !sealed(wire@) ==> r
                == Err::<Self, SdkError>(SdkError::DigestMismatch),
    {
        if wire.algorithm_version != CERTIFICATE_ALGORITHM_VERSION {
            return Err(
                SdkError::SchemaMismatch {
                    expected: CERTIFICATE_ALGORITHM_VERSION,
                    actual: wire.algorithm_version,
                },
            );
        }
        let sealed_cert = Self::seal(
            wire.algorithm_version,
            wire.input_digest,
            wire.context_digest,
            wire.policy_digest,
            wire.exact_result_digest,
            wire.decision_digest,
            wire.decision,
            wire.ontology_valid,
            wire.ontology_violation_count,
        );
        proof {
            assert(certificate_message(sealed_cert@) == certificate_message(wire@));
        }
        if !digest_eq(&sealed_cert.self_digest, &wire.self_digest) {
            return Err(SdkError::DigestMismatch);
        }
        proof {
            assert(sealed_cert@ == wire@);
        }
        Ok(sealed_cert)
    }
}

/// Compares replays of deterministic verification.
pub struct DeterministicVerifier;

impl DeterministicVerifier {
    /// Any divergence in the bound context, the applied policy, the decision or
    /// the semantic-consistency outcome is `NonReproducible`; only a difference
    /// in the exact numeric result may be `DecisionEquivalent`.
    pub fn compare_replay(original: &ResultCertificate, replayed: &ResultCertificate) -> (r:
        ReplayStatus)
        ensures
            r == replay_status(original@, replayed@),
    {
        if original.algorithm_version != replayed.algorithm_version || !digest_eq(
            &original.input_digest,
            &replayed.input_digest,
        ) || !digest_eq(&original.context_digest, &replayed.context_digest) || !digest_eq(
            &original.policy_digest,
            &replayed.policy_digest,
        ) || original.decision != replayed.decision || original.ontology_valid
            != replayed.ontology_valid || original.ontology_violation_count
            != replayed.ontology_violation_count {
            return ReplayStatus::NonReproducible;
        }
        if digest_eq(&original.exact_result_digest, &replayed.exact_result_digest) {
            ReplayStatus::Exact
        } else if digest_eq(&original.decision_digest, &replayed.decision_digest) {
            ReplayStatus::DecisionEquivalent
        } else {
            ReplayStatus::NonReproducible
        }
    }
}

/// Replaying a certificate against itself is exact.
pub proof fn lemma_replay_of_itself_is_exact(c: CertificateView)
    ensures
        replay_status(c, c) == ReplayStatus::Exact,
{
}

/// A divergence in the semantic-consistency outcome is never downgraded: it is
/// `NonReproducible`.
pub proof fn lemma_consistency_divergence_not_reproducible(o: CertificateView, r: CertificateView)
    requires
        o.ontology_valid != r.ontology_valid || o.ontology_violation_count
            != r.ontology_violation_count,
    ensures
        replay_status(o, r) == ReplayStatus::NonReproducible,
{
}

/// Only a difference in the exact result digest can be `DecisionEquivalent`:
/// such a verdict means every other bound field agrees.
pub proof fn lemma_decision_equivalent_only_on_exact_digest(o: CertificateView, r: CertificateView)
    requires
        replay_status(o, r) == ReplayStatus::DecisionEquivalent,
    ensures
        o.algorithm_version == r.algorithm_version,
        o.input_digest == r.input_digest,
        o.context_digest == r.context_digest,
        o.policy_digest == r.policy_digest,
        o.decision == r.decision,
        o.decision_digest == r.decision_digest,
        o.exact_result_digest != r.exact_result_digest,
{
}

/// A certificate that was sealed under the current algorithm version is read
/// back from its wire form unchanged; the replay of the two is exact.
pub proof fn lemma_sealed_certificate_round_trips(v: CertificateView)
    requires
        sealed(v),
        v.algorithm_version == CERTIFICATE_ALGORITHM_VERSION,
    ensures
        wire_accepted(v),
        replay_status(v, v) == ReplayStatus::Exact,
{
}

/// The decision of a verification policy, from the outcomes of its checks.
///
/// Inconsistent semantics under a policy that requires consistency go to
/// review; an unknown result, too much uncertainty or too little top-class
/// confidence abstain; an anomaly above the policy limit goes to review;
/// everything else is accepted.
pub open spec fn decision_for(
    requires_consistency: bool,
    consistency_valid: bool,
    unknown: bool,
    uncertainty_above_limit: bool,
    confidence_below_minimum: bool,
    anomaly_above_limit: bool,
) -> VerificationDecision {
    if requires_consistency && !consistency_valid {
        VerificationDecision::Review
    } else if unknown || uncertainty_above_limit || confidence_below_minimum {
        VerificationDecision::Abstain
    } else if anomaly_above_limit {
        VerificationDecision::Review
    } else {
        VerificationDecision::Accept
    }
}

/// Applies a verification policy to the outcomes of its checks.
pub fn decide(
    requires_consistency: bool,
    consistency_valid: bool,
    unknown: bool,
    uncertainty_above_limit: bool,
    confidence_below_minimum: bool,
    anomaly_above_limit: bool,
) -> (r: VerificationDecision)
    ensures
        r == decision_for(
            requires_consistency,
            consistency_valid,
            unknown,
            uncertainty_above_limit,
            confidence_below_minimum,
            anomaly_above_limit,
        ),
{
    if requires_consistency && !consistency_valid {
        VerificationDecision::Review
    } else if unknown || uncertainty_above_limit || confidence_below_minimum {
        VerificationDecision::Abstain
    } else if anomaly_above_limit {
        VerificationDecision::Review
    } else {
        VerificationDecision::Accept
    }
}

/// An inconsistent ontology under a policy that requires consistency is never
/// accepted, whatever the numbers say.
pub proof fn lemma_inconsistency_is_never_accepted(
    unknown: bool,
    uncertainty_above_limit: bool,
    confidence_below_minimum: bool,
    anomaly_above_limit: bool,
)
    ensures
        decision_for(
            true,
            false,
            unknown,
            uncertainty_above_limit,
            confidence_below_minimum,
            anomaly_above_limit,
        ) == VerificationDecision::Review,
{
}

/// Four-byte words, each little-endian, after their count as eight bytes.
pub open spec fn words_block(words: Seq<u32>) -> Seq<u8>
    decreases words.len(),
{
    if words.len() == 0 {
        Seq::empty()
    } else {
        words_block(words.drop_last()) + le_bytes(words.last() as nat, 4)
    }
}

/// A count-prefixed block of words.
pub open spec fn counted_words(words: Seq<u32>) -> Seq<u8> {
    le_bytes(words.len(), 8) + words_block(words)
}

/// An optional word: a 0 byte, or a 1 byte and the word.
pub open spec fn optional_word(w: Option<u32>) -> Seq<u8> {
    match w {
        Some(v) => seq![1u8] + le_bytes(v as nat, 4),
        None => seq![0u8],
    }
}

/// An optional eight-byte value: a 0 byte, or a 1 byte and the value.
pub open spec fn optional_quantity(q: Option<u64>) -> Seq<u8> {
    match q {
        Some(v) => seq![1u8] + le_bytes(v as nat, 8),
        None => seq![0u8],
    }
}

fn push_words(buf: &mut Vec<u8>, words: &[u32])
    ensures
        final(buf)@ == old(buf)@ + counted_words(words@),
{
    let ghost start = buf@;
    push_le(buf, words.len() as u64, 8);
    let ghost head = buf@;
    let mut i: usize = 0;
    while i < words.len()
        invariant
            i <= words@.len(),
            head == start + le_bytes(words@.len(), 8),
            buf@ == head + words_block(words@.take(i as int)),
        decreases words.len() - i,
    {
        push_le(buf, words[i] as u64, 4);
        i += 1;
        proof {
            let t = words@.take(i as int);
            assert(t.drop_last() =~= words@.take((i - 1) as int));
            assert(buf@ =~= head + words_block(t));
        }
    }
    proof {
        assert(words@.take(i as int) =~= words@);
        assert(buf@ =~= start + counted_words(words@));
    }
}

fn push_optional_word(buf: &mut Vec<u8>, w: Option<u32>)
    ensures
        final(buf)@ == old(buf)@ + optional_word(w),
{
    let ghost start = buf@;
    match w {
        Some(v) => {
            buf.push(1u8);
            push_le(buf, v as u64, 4);
        },
        None => {
            buf.push(0u8);
        },
    }
    proof {
        assert(buf@ =~= start + optional_word(w));
    }
}

pub open spec fn policy_domain() -> Seq<u8> {
    "anderion-sigint-verification-policy-v1".spec_bytes()
}

/// The byte message that identifies a verification policy. Probabilities are
/// given by their `f32` bit patterns, with both zeros written as 0.
pub open spec fn policy_message(
    min_class_confidence_bits: u32,
    max_uncertainty_bits: u32,
    max_anomaly_score_bits: Option<u32>,
    fixed_point_scale: u32,
    requires_consistency: bool,
) -> Seq<u8> {
    framed(policy_domain()) + le_bytes(min_class_confidence_bits as nat, 4) + le_bytes(
        max_uncertainty_bits as nat,
        4,
    ) + optional_word(max_anomaly_score_bits) + le_bytes(fixed_point_scale as nat, 4) + flag_byte(
        requires_consistency,
    )
}

/// The digest that binds a verification policy into a certificate.
pub fn policy_digest(
    min_class_confidence_bits: u32,
    max_uncertainty_bits: u32,
    max_anomaly_score_bits: Option<u32>,
    fixed_point_scale: u32,
    requires_consistency: bool,
) -> (r: Digest32)
    ensures
        r@ == sha256_of(
            policy_message(
                min_class_confidence_bits,
                max_uncertainty_bits,
                max_anomaly_score_bits,
                fixed_point_scale,
                requires_consistency,
            ),
        ),
{
    let mut buf: Vec<u8> = Vec::new();
    push_framed(&mut buf, "anderion-sigint-verification-policy-v1".as_bytes());
    push_le(&mut buf, min_class_confidence_bits as u64, 4);
    push_le(&mut buf, max_uncertainty_bits as u64, 4);
    push_optional_word(&mut buf, max_anomaly_score_bits);
    push_le(&mut buf, fixed_point_scale as u64, 4);
    push_flag(&mut buf, requires_consistency);
    proof {
        assert(buf@ =~= policy_message(
            min_class_confidence_bits,
            max_uncertainty_bits,
            max_anomaly_score_bits,
            fixed_point_scale,
            requires_consistency,
        ));
    }
    Digest32(sha256(buf.as_slice()))
}

pub open spec fn input_domain() -> Seq<u8> {
    "anderion-sigint-input-v1".spec_bytes()
}

/// The byte message that identifies an observation: its id, time stamp and
/// feature bit patterns.
pub open spec fn input_message(id: Seq<char>, timestamp_ms: u64, feature_bits: Seq<u32>) -> Seq<
    u8,
> {
    framed(input_domain()) + framed(encode_utf8(id)) + le_bytes(timestamp_ms as nat, 8)
        + counted_words(feature_bits)
}

/// The digest that binds an observation into a certificate.
pub fn input_digest(id: &str, timestamp_ms: u64, feature_bits: &[u32]) -> (r: Digest32)
    ensures
        r@ == sha256_of(input_message(id@, timestamp_ms, feature_bits@)),
{
    let mut buf: Vec<u8> = Vec::new();
    push_framed(&mut buf, "anderion-sigint-input-v1".as_bytes());
    push_framed(&mut buf, id.as_bytes());
    push_le(&mut buf, timestamp_ms, 8);
    push_words(&mut buf, feature_bits);
    proof {
        assert(buf@ =~= input_message(id@, timestamp_ms, feature_bits@));
    }
    Digest32(sha256(buf.as_slice()))
}

pub open spec fn exact_domain() -> Seq<u8> {
    "anderion-sigint-result-exact-v1".spec_bytes()
}

/// The class scores of a result: each label, then its probability bits.
pub open spec fn scores_block(labels: Seq<Seq<char>>, probability_bits: Seq<u32>) -> Seq<u8>
    decreases labels.len(),
{
    if labels.len() == 0 {
        Seq::empty()
    } else {
        scores_block(labels.drop_last(), probability_bits.drop_last()) + framed(
            encode_utf8(labels.last()),
        ) + le_bytes(probability_bits.last() as nat, 4)
    }
}

/// The byte message that identifies a result exactly.
pub open spec fn exact_message(
    labels: Seq<Seq<char>>,
    probability_bits: Seq<u32>,
    unknown: bool,
    anomaly_score_bits: Option<u32>,
    embedding_bits: Seq<u32>,
    uncertainty_bits: u32,
) -> Seq<u8> {
    framed(exact_domain()) + le_bytes(labels.len(), 8) + scores_block(labels, probability_bits)
        + flag_byte(unknown) + optional_word(anomaly_score_bits) + counted_words(embedding_bits)
        + le_bytes(uncertainty_bits as nat, 4)
}

/// The digest of a result's exact numbers: labels with probability bits, the
/// unknown flag, the anomaly score, the embedding and the uncertainty.
pub fn exact_result_digest(
    labels: &Vec<String>,
    probability_bits: &Vec<u32>,
    unknown: bool,
    anomaly_score_bits: Option<u32>,
    embedding_bits: &[u32],
    uncertainty_bits: u32,
) -> (r: Digest32)
    requires
        labels@.len() == probability_bits@.len(),
    ensures
        r@ == sha256_of(
            exact_message(
                labels@.map_values(|l: String| l@),
                probability_bits@,
                unknown,
                anomaly_score_bits,
                embedding_bits@,
                uncertainty_bits,
            ),
        ),
{
    let ghost ls = labels@.map_values(|l: String| l@);
    let mut buf: Vec<u8> = Vec::new();
    push_framed(&mut buf, "anderion-sigint-result-exact-v1".as_bytes());
    push_le(&mut buf, labels.len() as u64, 8);
    let ghost head = buf@;
    let mut i: usize = 0;
    while i < labels.len()
        invariant
            i <= labels@.len(),
            labels@.len() == probability_bits@.len(),
            ls == labels@.map_values(|l: String| l@),
            buf@ == head + scores_block(ls.take(i as int), probability_bits@.take(i as int)),
        decreases labels.len() - i,
    {
        push_framed(&mut buf, labels[i].as_str().as_bytes());
        push_le(&mut buf, probability_bits[i] as u64, 4);
        i += 1;
        proof {
            let a = ls.take(i as int);
            let b = probability_bits@.take(i as int);
            assert(a.drop_last() =~= ls.take((i - 1) as int));
            assert(b.drop_last() =~= probability_bits@.take((i - 1) as int));
            assert(a.last() == labels@[i - 1]@);
            assert(buf@ =~= head + scores_block(a, b));
        }
    }
    proof {
        assert(ls.take(i as int) =~= ls);
        assert(probability_bits@.take(i as int) =~= probability_bits@);
    }
    push_flag(&mut buf, unknown);
    push_optional_word(&mut buf, anomaly_score_bits);
    push_words(&mut buf, embedding_bits);
    push_le(&mut buf, uncertainty_bits as u64, 4);
    proof {
        assert(buf@ =~= exact_message(
            ls,
            probability_bits@,
            unknown,
            anomaly_score_bits,
            embedding_bits@,
            uncertainty_bits,
        ));
    }
    Digest32(sha256(buf.as_slice()))
}

pub open spec fn decision_domain() -> Seq<u8> {
    "anderion-sigint-decision-v1".spec_bytes()
}

/// The byte message that identifies a result up to its decision: the top
/// label and the fixed-point probability, anomaly score and uncertainty.
pub open spec fn decision_message(
    top_label: Seq<char>,
    top_probability_fixed: u64,
    unknown: bool,
    anomaly_score_fixed: Option<u64>,
    uncertainty_fixed: u64,
) -> Seq<u8> {
    framed(decision_domain()) + framed(encode_utf8(top_label)) + le_bytes(
        top_probability_fixed as nat,
        8,
    ) + flag_byte(unknown) + optional_quantity(anomaly_score_fixed) + le_bytes(
        uncertainty_fixed as nat,
        8,
    )
}

/// The digest of a result's decision-relevant values in fixed point.
pub fn decision_result_digest(
    top_label: &str,
    top_probability_fixed: u64,
    unknown: bool,
    anomaly_score_fixed: Option<u64>,
    uncertainty_fixed: u64,
) -> (r: Digest32)
    ensures
        r@ == sha256_of(
            decision_message(
                top_label@,
                top_probability_fixed,
                unknown,
                anomaly_score_fixed,
                uncertainty_fixed,
            ),
        ),
{
    let mut buf: Vec<u8> = Vec::new();
    push_framed(&mut buf, "anderion-sigint-decision-v1".as_bytes());
    push_framed(&mut buf, top_label.as_bytes());
    push_le(&mut buf, top_probability_fixed, 8);
    push_flag(&mut buf, unknown);
    match anomaly_score_fixed {
        Some(v) => {
            buf.push(1u8);
            push_le(&mut buf, v, 8);
        },
        None => {
            buf.push(0u8);
        },
    }
    push_le(&mut buf, uncertainty_fixed, 8);
    proof {
        assert(buf@ =~= decision_message(
            top_label@,
            top_probability_fixed,
            unknown,
            anomaly_score_fixed,
            uncertainty_fixed,
        ));
    }
    Digest32(sha256(buf.as_slice()))
}

/// The bit patterns and flags of a verification policy, as they are bound
/// into a certificate.
#[derive(Debug, Clone, Copy)]
pub struct PolicyWords {
    pub min_class_confidence_bits: u32,
    pub max_uncertainty_bits: u32,
    pub max_anomaly_score_bits: Option<u32>,
    pub fixed_point_scale: u32,
    pub requires_consistency: bool,
}

/// A prediction as it is bound into a certificate: its class labels, best
/// first, with the bit patterns of their probabilities; its flags and the bit
/// patterns of its numbers; and its decision-relevant values in fixed point.
#[derive(Debug, Clone)]
pub struct ResultWords {
    pub labels: Vec<String>,
    pub probability_bits: Vec<u32>,
    pub unknown: bool,
    pub anomaly_score_bits: Option<u32>,
    pub embedding_bits: Vec<u32>,
    pub uncertainty_bits: u32,
    pub top_probability_fixed: u64,
    pub anomaly_score_fixed: Option<u64>,
    pub uncertainty_fixed: u64,
}

/// The outcomes of a policy's threshold comparisons for one prediction.
#[derive(Debug, Clone, Copy)]
pub struct ThresholdOutcomes {
    pub uncertainty_above_limit: bool,
    pub confidence_below_minimum: bool,
    pub anomaly_above_limit: bool,
}

/// The policy digest of a policy's words.
pub open spec fn policy_digest_of(p: PolicyWords) -> Seq<u8> {
    sha256_of(
        policy_message(
            p.min_class_confidence_bits,
            p.max_uncertainty_bits,
            p.max_anomaly_score_bits,
            p.fixed_point_scale,
            p.requires_consistency,
        ),
    )
}

/// The context digest of a context.
pub open spec fn context_digest_of(c: ContextView) -> Seq<u8> {
    sha256_of(
        context_message(
            c.model_digest,
            c.config_digest,
            encode_utf8(c.ontology_version),
            encode_utf8(c.pipeline_version),
            c.seed,
        ),
    )
}

/// The exact-result digest of a prediction's words.
pub open spec fn exact_digest_of(w: ResultWords) -> Seq<u8> {
    sha256_of(
        exact_message(
            w.labels@.map_values(|l: String| l@),
            w.probability_bits@,
            w.unknown,
            w.anomaly_score_bits,
            w.embedding_bits@,
            w.uncertainty_bits,
        ),
    )
}

/// The decision digest of a prediction's words: its top label is its first.
pub open spec fn decision_digest_of(w: ResultWords) -> Seq<u8> {
    sha256_of(
        decision_message(
            w.labels@[0]@,
            w.top_probability_fixed,
            w.unknown,
            w.anomaly_score_fixed,
            w.uncertainty_fixed,
        ),
    )
}

/// The certificate that deterministic verification issues for an
/// observation, a context, a policy, a prediction, the outcomes of the
/// policy's thresholds and a consistency report.
pub open spec fn certified(
    c: CertificateView,
    observation_id: Seq<char>,
    timestamp_ms: u64,
    feature_bits: Seq<u32>,
    context: ContextView,
    policy: PolicyWords,
    result: ResultWords,
    outcomes: ThresholdOutcomes,
    consistency: Seq<ViolationView>,
) -> bool {
    &&& c.algorithm_version == CERTIFICATE_ALGORITHM_VERSION
    &&& c.input_digest == sha256_of(input_message(observation_id, timestamp_ms, feature_bits))
    &&& c.context_digest == context_digest_of(context)
    &&& c.policy_digest == policy_digest_of(policy)
    &&& c.exact_result_digest == exact_digest_of(result)
    &&& c.decision_digest == decision_digest_of(result)
    &&& c.decision == decision_for(
        policy.requires_consistency,
        consistency.len() == 0,
        result.unknown,
        outcomes.uncertainty_above_limit,
        outcomes.confidence_below_minimum,
        outcomes.anomaly_above_limit,
    )
    &&& c.ontology_valid == (consistency.len() == 0)
    &&& c.ontology_violation_count == consistency.len()
    &&& sealed(c)
}

impl DeterministicVerifier {
    /// Issues the certificate of one verified prediction: the policy decides
    /// from the consistency report and the threshold outcomes, and every
    /// input is bound by its digest under the current algorithm version. A
    /// prediction without class scores has no top class and is refused.
    pub fn certify(
        observation_id: &str,
        timestamp_ms: u64,
        feature_bits: &[u32],
        context: &VerificationContext,
        policy: &PolicyWords,
        result: &ResultWords,
        outcomes: ThresholdOutcomes,
        consistency: &ConsistencyReport,
    ) -> (r: Result<ResultCertificate, SdkError>)
        requires
            result.labels@.len() == result.probability_bits@.len(),
        ensures
            r is Ok <==> result.labels@.len() > 0,
            r matches Err(e) ==> (e matches SdkError::InvalidArgument(m) && m@
                == "prediction must contain class scores"@),
            r matches Ok(c) ==> certified(
                c@,
                observation_id@,
                timestamp_ms,
                feature_bits@,
                context@,
                *policy,
                *result,
                outcomes,
                consistency@,
            ),
    {
        if result.labels.len() == 0 {
            return Err(
                SdkError::InvalidArgument(String::from_str("prediction must contain class scores")),
            );
        }
        let valid = consistency.is_valid();
        let decision = decide(
            policy.requires_consistency,
            valid,
            result.unknown,
            outcomes.uncertainty_above_limit,
            outcomes.confidence_below_minimum,
            outcomes.anomaly_above_limit,
        );
        let input = input_digest(observation_id, timestamp_ms, feature_bits);
        let context_digest = hash_context(context);
        let policy_digest = policy_digest(
            policy.min_class_confidence_bits,
            policy.max_uncertainty_bits,
            policy.max_anomaly_score_bits,
            policy.fixed_point_scale,
            policy.requires_consistency,
        );
        let exact = exact_result_digest(
            &result.labels,
            &result.probability_bits,
            result.unknown,
            result.anomaly_score_bits,
            result.embedding_bits.as_slice(),
            result.uncertainty_bits,
        );
        let decision_digest = decision_result_digest(
            result.labels[0].as_str(),
            result.top_probability_fixed,
            result.unknown,
            result.anomaly_score_fixed,
            result.uncertainty_fixed,
        );
        let count = consistency.violations().len();
        Ok(
            ResultCertificate::seal(
                CERTIFICATE_ALGORITHM_VERSION,
                input,
                context_digest,
                policy_digest,
                exact,
                decision_digest,
                decision,
                valid,
                count,
            ),
        )
    }
}

/// What a certificate binds depends on its own inputs alone: two issued
/// certificates with the same observation have the same input digest, with
/// the same context the same context digest, with the same policy the same
/// policy digest, whatever the other inputs were.
pub proof fn lemma_certificate_digests_are_separate(
    c1: CertificateView,
    id1: Seq<char>,
    ts1: u64,
    bits1: Seq<u32>,
    ctx1: ContextView,
    pol1: PolicyWords,
    res1: ResultWords,
    out1: ThresholdOutcomes,
    cons1: Seq<ViolationView>,
    c2: CertificateView,
    id2: Seq<char>,
    ts2: u64,
    bits2: Seq<u32>,
    ctx2: ContextView,
    pol2: PolicyWords,
    res2: ResultWords,
    out2: ThresholdOutcomes,
    cons2: Seq<ViolationView>,
)
    requires
        certified(c1, id1, ts1, bits1, ctx1, pol1, res1, out1, cons1),
        certified(c2, id2, ts2, bits2, ctx2, pol2, res2, out2, cons2),
    ensures
        id1 == id2 && ts1 == ts2 && bits1 == bits2 ==> c1.input_digest == c2.input_digest,
        ctx1 == ctx2 ==> c1.context_digest == c2.context_digest,
        pol1 == pol2 ==> c1.policy_digest == c2.policy_digest,
        c1.algorithm_version == CERTIFICATE_ALGORITHM_VERSION,
        c1.ontology_valid == (cons1.len() == 0),
        c1.ontology_violation_count == cons1.len(),
{
}

/// Certification is deterministic: the same inputs give the same
/// certificate, field for field, so its replay is exact.
pub proof fn lemma_certification_is_deterministic(
    c1: CertificateView,
    c2: CertificateView,
    id: Seq<char>,
    ts: u64,
    bits: Seq<u32>,
    ctx: ContextView,
    pol: PolicyWords,
    res: ResultWords,
    out: ThresholdOutcomes,
    cons: Seq<ViolationView>,
)
    requires
        certified(c1, id, ts, bits, ctx, pol, res, out, cons),
        certified(c2, id, ts, bits, ctx, pol, res, out, cons),
    ensures
        c1 == c2,
        replay_status(c1, c2) == ReplayStatus::Exact,
{
    assert(certificate_message(c1) == certificate_message(c2));
}

/// The policy's decision, case by case: an inconsistent ontology under a
/// policy that requires consistency goes to review; otherwise an unknown
/// result, too much uncertainty or too little confidence abstains; otherwise
/// an anomaly above the limit goes to review; and only a result clear of
/// every check is accepted. No policy outcome is `Reject`.
pub proof fn lemma_decision_cases(
    requires_consistency: bool,
    consistency_valid: bool,
    unknown: bool,
    uncertainty_above_limit: bool,
    confidence_below_minimum: bool,
    anomaly_above_limit: bool,
)
    ensures
        ({
            let d = decision_for(
                requires_consistency,
                consistency_valid,
                unknown,
                uncertainty_above_limit,
                confidence_below_minimum,
                anomaly_above_limit,
            );
            let inconsistent = requires_consistency && !consistency_valid;
            let doubtful = unknown || uncertainty_above_limit || confidence_below_minimum;
            &&& (d == VerificationDecision::Accept) == (!inconsistent && !doubtful && !anomaly_above_limit)
            &&& (d == VerificationDecision::Abstain) == (!inconsistent && doubtful)
            &&& (d == VerificationDecision::Review) == (inconsistent || (!doubtful && anomaly_above_limit))
            &&& d != VerificationDecision::Reject
        }),
{
}

/// An anomaly above the policy's limit is never accepted: a consistent (or
/// unchecked), confident, certain, known result with such an anomaly goes to
/// review.
pub proof fn lemma_anomaly_goes_to_review(requires_consistency: bool, consistency_valid: bool)
    requires
        !(requires_consistency && !consistency_valid),
    ensures
        decision_for(requires_consistency, consistency_valid, false, false, false, true)
            == VerificationDecision::Review,
{
}

/// The replay verdicts: `Exact` when every bound field agrees and so does the
/// exact result digest; `DecisionEquivalent` when every bound field agrees
/// and only the exact result differs while the decision digest agrees;
/// `NonReproducible` otherwise. The bound fields are the algorithm version,
/// the input, context and policy digests, the decision and both
/// consistency fields.
pub proof fn lemma_replay_verdicts(o: CertificateView, r: CertificateView)
    ensures
        ({
            let agree = o.algorithm_version == r.algorithm_version && o.input_digest == r.input_digest
                && o.context_digest == r.context_digest && o.policy_digest == r.policy_digest
                && o.decision == r.decision && o.ontology_valid == r.ontology_valid
                && o.ontology_violation_count == r.ontology_violation_count;
            &&& (replay_status(o, r) == ReplayStatus::Exact) == (agree && o.exact_result_digest
                == r.exact_result_digest)
            &&& (replay_status(o, r) == ReplayStatus::DecisionEquivalent) == (agree
                && o.exact_result_digest != r.exact_result_digest && o.decision_digest
                == r.decision_digest)
            &&& (replay_status(o, r) == ReplayStatus::NonReproducible) == (!agree || (
            o.exact_result_digest != r.exact_result_digest && o.decision_digest != r.decision_digest))
        }),
{
}

/// A changed policy digest is never reproducible, whatever else agrees.
pub proof fn lemma_policy_change_not_reproducible(o: CertificateView, r: CertificateView)
    requires
        o.policy_digest != r.policy_digest,
    ensures
        replay_status(o, r) == ReplayStatus::NonReproducible,
{
}

/// The context message fixes the context: equal messages come from equal
/// model and configuration digests, version texts and seeds, so contexts
/// that differ in anything (the seed among them) are bound differently.
pub proof fn lemma_context_message_injective(
    model1: Seq<u8>,
    config1: Seq<u8>,
    ontology1: Seq<u8>,
    pipeline1: Seq<u8>,
    seed1: u64,
    model2: Seq<u8>,
    config2: Seq<u8>,
    ontology2: Seq<u8>,
    pipeline2: Seq<u8>,
    seed2: u64,
)
    requires
        model1.len() == 32,
        model2.len() == 32,
        config1.len() == 32,
        config2.len() == 32,
        ontology1.len() < byte_range(8),
        ontology2.len() < byte_range(8),
        pipeline1.len() < byte_range(8),
        pipeline2.len() < byte_range(8),
        context_message(model1, config1, ontology1, pipeline1, seed1) == context_message(
            model2,
            config2,
            ontology2,
            pipeline2,
            seed2,
        ),
    ensures
        model1 == model2,
        config1 == config2,
        ontology1 == ontology2,
        pipeline1 == pipeline2,
        seed1 == seed2,
{
    let d = framed(context_domain());
    let s1 = le_bytes(seed1 as nat, 8);
    let s2 = le_bytes(seed2 as nat, 8);
    let t1 = model1 + (config1 + (framed(ontology1) + (framed(pipeline1) + s1)));
    let t2 = model2 + (config2 + (framed(ontology2) + (framed(pipeline2) + s2)));
    assert(context_message(model1, config1, ontology1, pipeline1, seed1) =~= d + t1);
    assert(context_message(model2, config2, ontology2, pipeline2, seed2) =~= d + t2);
    lemma_split_front(d, t1, d, t2);
    lemma_split_front(model1, config1 + (framed(ontology1) + (framed(pipeline1) + s1)), model2, config2 + (
    framed(ontology2) + (framed(pipeline2) + s2)));
    lemma_split_front(config1, framed(ontology1) + (framed(pipeline1) + s1), config2, framed(ontology2) + (
    framed(pipeline2) + s2));
    lemma_framed_front(ontology1, framed(pipeline1) + s1, ontology2, framed(pipeline2) + s2);
    lemma_framed_front(pipeline1, s1, pipeline2, s2);
    lemma_u64_fits_eight_bytes(seed1);
    lemma_u64_fits_eight_bytes(seed2);
    lemma_le_bytes_injective(seed1 as nat, seed2 as nat, 8);
}

/// Contexts that differ only in their seed have different context messages.
pub proof fn lemma_seed_is_bound(
    model: Seq<u8>,
    config: Seq<u8>,
    ontology: Seq<u8>,
    pipeline: Seq<u8>,
    seed1: u64,
    seed2: u64,
)
    requires
        model.len() == 32,
        config.len() == 32,
        ontology.len() < byte_range(8),
        pipeline.len() < byte_range(8),
        seed1 != seed2,
    ensures
        context_message(model, config, ontology, pipeline, seed1) != context_message(
            model,
            config,
            ontology,
            pipeline,
            seed2,
        ),
{
    if context_message(model, config, ontology, pipeline, seed1) == context_message(
        model,
        config,
        ontology,
        pipeline,
        seed2,
    ) {
        lemma_context_message_injective(model, config, ontology, pipeline, seed1, model, config, ontology, pipeline, seed2);
    }
}

proof fn lemma_le_front(v1: nat, x1: Seq<u8>, v2: nat, x2: Seq<u8>, n: nat)
    requires
        v1 < byte_range(n),
        v2 < byte_range(n),
        le_bytes(v1, n) + x1 == le_bytes(v2, n) + x2,
    ensures
        v1 == v2,
        x1 == x2,
{
    lemma_le_bytes_len(v1, n);
    lemma_le_bytes_len(v2, n);
    lemma_split_front(le_bytes(v1, n), x1, le_bytes(v2, n), x2);
    lemma_le_bytes_injective(v1, v2, n);
}

proof fn lemma_byte_front(b1: u8, x1: Seq<u8>, b2: u8, x2: Seq<u8>)
    requires
        seq![b1] + x1 == seq![b2] + x2,
    ensures
        b1 == b2,
        x1 == x2,
{
    lemma_split_front(seq![b1], x1, seq![b2], x2);
    assert(seq![b1][0] == b1);
}

proof fn lemma_flag_front(f1: bool, x1: Seq<u8>, f2: bool, x2: Seq<u8>)
    requires
        flag_byte(f1) + x1 == flag_byte(f2) + x2,
    ensures
        f1 == f2,
        x1 == x2,
{
    lemma_byte_front(if f1 { 1u8 } else { 0u8 }, x1, if f2 { 1u8 } else { 0u8 }, x2);
}

proof fn lemma_optional_word_front(w1: Option<u32>, x1: Seq<u8>, w2: Option<u32>, x2: Seq<u8>)
    requires
        optional_word(w1) + x1 == optional_word(w2) + x2,
    ensures
        w1 == w2,
        x1 == x2,
{
    let t1 = match w1 {
        Some(v) => le_bytes(v as nat, 4) + x1,
        None => x1,
    };
    let t2 = match w2 {
        Some(v) => le_bytes(v as nat, 4) + x2,
        None => x2,
    };
    let b1: u8 = if w1 is Some { 1 } else { 0 };
    let b2: u8 = if w2 is Some { 1 } else { 0 };
    assert(optional_word(w1) + x1 =~= seq![b1] + t1);
    assert(optional_word(w2) + x2 =~= seq![b2] + t2);
    lemma_byte_front(b1, t1, b2, t2);
    if let Some(v1) = w1 {
        let v2 = w2->0;
        lemma_u32_fits_four_bytes(v1);
        lemma_u32_fits_four_bytes(v2);
        lemma_le_front(v1 as nat, x1, v2 as nat, x2, 4);
    }
}

proof fn lemma_optional_quantity_front(q1: Option<u64>, x1: Seq<u8>, q2: Option<u64>, x2: Seq<u8>)
    requires
        optional_quantity(q1) + x1 == optional_quantity(q2) + x2,
    ensures
        q1 == q2,
        x1 == x2,
{
    let t1 = match q1 {
        Some(v) => le_bytes(v as nat, 8) + x1,
        None => x1,
    };
    let t2 = match q2 {
        Some(v) => le_bytes(v as nat, 8) + x2,
        None => x2,
    };
    let b1: u8 = if q1 is Some { 1 } else { 0 };
    let b2: u8 = if q2 is Some { 1 } else { 0 };
    assert(optional_quantity(q1) + x1 =~= seq![b1] + t1);
    assert(optional_quantity(q2) + x2 =~= seq![b2] + t2);
    lemma_byte_front(b1, t1, b2, t2);
    if let Some(v1) = q1 {
        let v2 = q2->0;
        lemma_u64_fits_eight_bytes(v1);
        lemma_u64_fits_eight_bytes(v2);
        lemma_le_front(v1 as nat, x1, v2 as nat, x2, 8);
    }
}

/// The policy message fixes the policy: equal messages come from equal
/// thresholds, anomaly limit, scale and consistency requirement.
pub proof fn lemma_policy_message_injective(
    min1: u32,
    max1: u32,
    anomaly1: Option<u32>,
    scale1: u32,
    consistency1: bool,
    min2: u32,
    max2: u32,
    anomaly2: Option<u32>,
    scale2: u32,
    consistency2: bool,
)
    requires
        policy_message(min1, max1, anomaly1, scale1, consistency1) == policy_message(
            min2,
            max2,
            anomaly2,
            scale2,
            consistency2,
        ),
    ensures
        min1 == min2,
        max1 == max2,
        anomaly1 == anomaly2,
        scale1 == scale2,
        consistency1 == consistency2,
{
    let d = framed(policy_domain());
    let e = Seq::<u8>::empty();
    let u1 = optional_word(anomaly1) + (le_bytes(scale1 as nat, 4) + (flag_byte(consistency1) + e));
    let u2 = optional_word(anomaly2) + (le_bytes(scale2 as nat, 4) + (flag_byte(consistency2) + e));
    let t1 = le_bytes(min1 as nat, 4) + (le_bytes(max1 as nat, 4) + u1);
    let t2 = le_bytes(min2 as nat, 4) + (le_bytes(max2 as nat, 4) + u2);
    assert(policy_message(min1, max1, anomaly1, scale1, consistency1) =~= d + t1);
    assert(policy_message(min2, max2, anomaly2, scale2, consistency2) =~= d + t2);
    lemma_split_front(d, t1, d, t2);
    lemma_u32_fits_four_bytes(min1);
    lemma_u32_fits_four_bytes(min2);
    lemma_u32_fits_four_bytes(max1);
    lemma_u32_fits_four_bytes(max2);
    lemma_u32_fits_four_bytes(scale1);
    lemma_u32_fits_four_bytes(scale2);
    lemma_le_front(min1 as nat, le_bytes(max1 as nat, 4) + u1, min2 as nat, le_bytes(max2 as nat, 4) + u2, 4);
    lemma_le_front(max1 as nat, u1, max2 as nat, u2, 4);
    lemma_optional_word_front(
        anomaly1,
        le_bytes(scale1 as nat, 4) + (flag_byte(consistency1) + e),
        anomaly2,
        le_bytes(scale2 as nat, 4) + (flag_byte(consistency2) + e),
    );
    lemma_le_front(scale1 as nat, flag_byte(consistency1) + e, scale2 as nat, flag_byte(consistency2) + e, 4);
    lemma_flag_front(consistency1, e, consistency2, e);
}

/// The decision message fixes the decision-relevant values: equal messages
/// come from equal top labels, fixed-point probabilities, unknown flags,
/// anomaly scores and uncertainties.
pub proof fn lemma_decision_message_injective(
    label1: Seq<char>,
    probability1: u64,
    unknown1: bool,
    anomaly1: Option<u64>,
    uncertainty1: u64,
    label2: Seq<char>,
    probability2: u64,
    unknown2: bool,
    anomaly2: Option<u64>,
    uncertainty2: u64,
)
    requires
        encode_utf8(label1).len() < byte_range(8),
        encode_utf8(label2).len() < byte_range(8),
        decision_message(label1, probability1, unknown1, anomaly1, uncertainty1) == decision_message(
            label2,
            probability2,
            unknown2,
            anomaly2,
            uncertainty2,
        ),
    ensures
        label1 == label2,
        probability1 == probability2,
        unknown1 == unknown2,
        anomaly1 == anomaly2,
        uncertainty1 == uncertainty2,
{
    let d = framed(decision_domain());
    let e = Seq::<u8>::empty();
    let u1 = flag_byte(unknown1) + (optional_quantity(anomaly1) + (le_bytes(uncertainty1 as nat, 8) + e));
    let u2 = flag_byte(unknown2) + (optional_quantity(anomaly2) + (le_bytes(uncertainty2 as nat, 8) + e));
    let t1 = framed(encode_utf8(label1)) + (le_bytes(probability1 as nat, 8) + u1);
    let t2 = framed(encode_utf8(label2)) + (le_bytes(probability2 as nat, 8) + u2);
    assert(decision_message(label1, probability1, unknown1, anomaly1, uncertainty1) =~= d + t1);
    assert(decision_message(label2, probability2, unknown2, anomaly2, uncertainty2) =~= d + t2);
    lemma_split_front(d, t1, d, t2);
    lemma_framed_front(
        encode_utf8(label1),
        le_bytes(probability1 as nat, 8) + u1,
        encode_utf8(label2),
        le_bytes(probability2 as nat, 8) + u2,
    );
    crate::ontology::lemma_encode_injective(label1, label2);
    lemma_u64_fits_eight_bytes(probability1);
    lemma_u64_fits_eight_bytes(probability2);
    lemma_u64_fits_eight_bytes(uncertainty1);
    lemma_u64_fits_eight_bytes(uncertainty2);
    lemma_le_front(probability1 as nat, u1, probability2 as nat, u2, 8);
    lemma_flag_front(
        unknown1,
        optional_quantity(anomaly1) + (le_bytes(uncertainty1 as nat, 8) + e),
        unknown2,
        optional_quantity(anomaly2) + (le_bytes(uncertainty2 as nat, 8) + e),
    );
    lemma_optional_quantity_front(
        anomaly1,
        le_bytes(uncertainty1 as nat, 8) + e,
        anomaly2,
        le_bytes(uncertainty2 as nat, 8) + e,
    );
    lemma_le_front(uncertainty1 as nat, e, uncertainty2 as nat, e, 8);
}

/// The message a certificate's own digest covers fixes every other field:
/// certificates that differ in any bound field, digest or outcome have
/// different messages.
pub proof fn lemma_certificate_message_injective(a: CertificateView, b: CertificateView)
    requires
        a.input_digest.len() == 32,
        a.context_digest.len() == 32,
        a.policy_digest.len() == 32,
        a.exact_result_digest.len() == 32,
        a.decision_digest.len() == 32,
        b.input_digest.len() == 32,
        b.context_digest.len() == 32,
        b.policy_digest.len() == 32,
        b.exact_result_digest.len() == 32,
        b.decision_digest.len() == 32,
        certificate_message(a) == certificate_message(b),
    ensures
        a.algorithm_version == b.algorithm_version,
        a.input_digest == b.input_digest,
        a.context_digest == b.context_digest,
        a.policy_digest == b.policy_digest,
        a.exact_result_digest == b.exact_result_digest,
        a.decision_digest == b.decision_digest,
        a.decision == b.decision,
        a.ontology_valid == b.ontology_valid,
        a.ontology_violation_count == b.ontology_violation_count,
{
    let d = framed(certificate_domain());
    assert(certificate_message(a) =~= d + certificate_rest(a));
    assert(certificate_message(b) =~= d + certificate_rest(b));
    lemma_split_front(d, certificate_rest(a), d, certificate_rest(b));
    lemma_certificate_rest_injective(a, b);
}

spec fn certificate_tail(v: CertificateView) -> Seq<u8> {
    seq![decision_tag_value(v.decision)] + (flag_byte(v.ontology_valid) + (le_bytes(
        v.ontology_violation_count as nat,
        8,
    ) + Seq::<u8>::empty()))
}

spec fn certificate_digests(v: CertificateView) -> Seq<u8> {
    v.input_digest + (v.context_digest + (v.policy_digest + (v.exact_result_digest + (
    v.decision_digest + certificate_tail(v)))))
}

spec fn certificate_rest(v: CertificateView) -> Seq<u8> {
    le_bytes(v.algorithm_version as nat, 4) + certificate_digests(v)
}

proof fn lemma_certificate_tail_injective(a: CertificateView, b: CertificateView)
    requires
        certificate_tail(a) == certificate_tail(b),
    ensures
        a.decision == b.decision,
        a.ontology_valid == b.ontology_valid,
        a.ontology_violation_count == b.ontology_violation_count,
{
    let e = Seq::<u8>::empty();
    lemma_byte_front(
        decision_tag_value(a.decision),
        flag_byte(a.ontology_valid) + (le_bytes(a.ontology_violation_count as nat, 8) + e),
        decision_tag_value(b.decision),
        flag_byte(b.ontology_valid) + (le_bytes(b.ontology_violation_count as nat, 8) + e),
    );
    lemma_flag_front(
        a.ontology_valid,
        le_bytes(a.ontology_violation_count as nat, 8) + e,
        b.ontology_valid,
        le_bytes(b.ontology_violation_count as nat, 8) + e,
    );
    lemma_u64_fits_eight_bytes(a.ontology_violation_count as u64);
    lemma_u64_fits_eight_bytes(b.ontology_violation_count as u64);
    lemma_le_front(a.ontology_violation_count as nat, e, b.ontology_violation_count as nat, e, 8);
}

proof fn lemma_certificate_rest_injective(a: CertificateView, b: CertificateView)
    requires
        a.input_digest.len() == 32,
        a.context_digest.len() == 32,
        a.policy_digest.len() == 32,
        a.exact_result_digest.len() == 32,
        a.decision_digest.len() == 32,
        b.input_digest.len() == 32,
        b.context_digest.len() == 32,
        b.policy_digest.len() == 32,
        b.exact_result_digest.len() == 32,
        b.decision_digest.len() == 32,
        certificate_rest(a) == certificate_rest(b),
    ensures
        a.algorithm_version == b.algorithm_version,
        a.input_digest == b.input_digest,
        a.context_digest == b.context_digest,
        a.policy_digest == b.policy_digest,
        a.exact_result_digest == b.exact_result_digest,
        a.decision_digest == b.decision_digest,
        a.decision == b.decision,
        a.ontology_valid == b.ontology_valid,
        a.ontology_violation_count == b.ontology_violation_count,
{
    lemma_u32_fits_four_bytes(a.algorithm_version);
    lemma_u32_fits_four_bytes(b.algorithm_version);
    lemma_le_front(a.algorithm_version as nat, certificate_digests(a), b.algorithm_version as nat, certificate_digests(b), 4);
    lemma_split_front(
        a.input_digest,
        a.context_digest + (a.policy_digest + (a.exact_result_digest + (a.decision_digest + certificate_tail(a)))),
        b.input_digest,
        b.context_digest + (b.policy_digest + (b.exact_result_digest + (b.decision_digest + certificate_tail(b)))),
    );
    lemma_split_front(
        a.context_digest,
        a.policy_digest + (a.exact_result_digest + (a.decision_digest + certificate_tail(a))),
        b.context_digest,
        b.policy_digest + (b.exact_result_digest + (b.decision_digest + certificate_tail(b))),
    );
    lemma_split_front(
        a.policy_digest,
        a.exact_result_digest + (a.decision_digest + certificate_tail(a)),
        b.policy_digest,
        b.exact_result_digest + (b.decision_digest + certificate_tail(b)),
    );
    lemma_split_front(
        a.exact_result_digest,
        a.decision_digest + certificate_tail(a),
        b.exact_result_digest,
        b.decision_digest + certificate_tail(b),
    );
    lemma_split_front(a.decision_digest, certificate_tail(a), b.decision_digest, certificate_tail(b));
    lemma_certificate_tail_injective(a, b);
}


proof fn lemma_words_block_len(w: Seq<u32>)
    ensures
        words_block(w).len() == 4 * w.len(),
    decreases w.len(),
{
    if w.len() > 0 {
        lemma_words_block_len(w.drop_last());
        lemma_le_bytes_len(w.last() as nat, 4);
    }
}

proof fn lemma_words_block_injective(w1: Seq<u32>, w2: Seq<u32>)
    requires
        w1.len() == w2.len(),
        words_block(w1) == words_block(w2),
    ensures
        w1 == w2,
    decreases w1.len(),
{
    if w1.len() > 0 {
        lemma_words_block_len(w1.drop_last());
        lemma_words_block_len(w2.drop_last());
        lemma_split_front(
            words_block(w1.drop_last()),
            le_bytes(w1.last() as nat, 4),
            words_block(w2.drop_last()),
            le_bytes(w2.last() as nat, 4),
        );
        lemma_words_block_injective(w1.drop_last(), w2.drop_last());
        lemma_u32_fits_four_bytes(w1.last());
        lemma_u32_fits_four_bytes(w2.last());
        lemma_le_bytes_injective(w1.last() as nat, w2.last() as nat, 4);
        assert(w1 =~= w1.drop_last().push(w1.last()));
        assert(w2 =~= w2.drop_last().push(w2.last()));
    } else {
        assert(w1 =~= w2);
    }
}

proof fn lemma_counted_words_front(w1: Seq<u32>, x1: Seq<u8>, w2: Seq<u32>, x2: Seq<u8>)
    requires
        w1.len() < byte_range(8),
        w2.len() < byte_range(8),
        counted_words(w1) + x1 == counted_words(w2) + x2,
    ensures
        w1 == w2,
        x1 == x2,
{
    assert(counted_words(w1) + x1 =~= le_bytes(w1.len(), 8) + (words_block(w1) + x1));
    assert(counted_words(w2) + x2 =~= le_bytes(w2.len(), 8) + (words_block(w2) + x2));
    lemma_le_front(w1.len(), words_block(w1) + x1, w2.len(), words_block(w2) + x2, 8);
    lemma_words_block_len(w1);
    lemma_words_block_len(w2);
    lemma_split_front(words_block(w1), x1, words_block(w2), x2);
    lemma_words_block_injective(w1, w2);
}

/// The input message fixes the observation: equal messages come from equal
/// ids, time stamps and feature bit patterns.
pub proof fn lemma_input_message_injective(
    id1: Seq<char>,
    timestamp1: u64,
    features1: Seq<u32>,
    id2: Seq<char>,
    timestamp2: u64,
    features2: Seq<u32>,
)
    requires
        encode_utf8(id1).len() < byte_range(8),
        encode_utf8(id2).len() < byte_range(8),
        features1.len() < byte_range(8),
        features2.len() < byte_range(8),
        input_message(id1, timestamp1, features1) == input_message(id2, timestamp2, features2),
    ensures
        id1 == id2,
        timestamp1 == timestamp2,
        features1 == features2,
{
    let d = framed(input_domain());
    let e = Seq::<u8>::empty();
    let t1 = framed(encode_utf8(id1)) + (le_bytes(timestamp1 as nat, 8) + (counted_words(features1) + e));
    let t2 = framed(encode_utf8(id2)) + (le_bytes(timestamp2 as nat, 8) + (counted_words(features2) + e));
    assert(input_message(id1, timestamp1, features1) =~= d + t1);
    assert(input_message(id2, timestamp2, features2) =~= d + t2);
    lemma_split_front(d, t1, d, t2);
    lemma_framed_front(
        encode_utf8(id1),
        le_bytes(timestamp1 as nat, 8) + (counted_words(features1) + e),
        encode_utf8(id2),
        le_bytes(timestamp2 as nat, 8) + (counted_words(features2) + e),
    );
    crate::ontology::lemma_encode_injective(id1, id2);
    lemma_u64_fits_eight_bytes(timestamp1);
    lemma_u64_fits_eight_bytes(timestamp2);
    lemma_le_front(timestamp1 as nat, counted_words(features1) + e, timestamp2 as nat, counted_words(features2) + e, 8);
    lemma_counted_words_front(features1, e, features2, e);
}

/// The class scores read from the front: the first label and its
/// probability bits, then the rest.
proof fn lemma_scores_block_front(labels: Seq<Seq<char>>, bits: Seq<u32>)
    requires
        labels.len() > 0,
        labels.len() == bits.len(),
    ensures
        scores_block(labels, bits) == framed(encode_utf8(labels[0])) + (le_bytes(bits[0] as nat, 4)
            + scores_block(labels.drop_first(), bits.drop_first())),
    decreases labels.len(),
{
    if labels.len() == 1 {
        assert(labels.drop_last() =~= Seq::<Seq<char>>::empty());
        assert(labels.drop_first() =~= Seq::<Seq<char>>::empty());
        assert(scores_block(labels.drop_last(), bits.drop_last()) =~= Seq::<u8>::empty());
        assert(scores_block(labels.drop_first(), bits.drop_first()) =~= Seq::<u8>::empty());
        assert(scores_block(labels, bits) =~= framed(encode_utf8(labels[0])) + (le_bytes(bits[0] as nat, 4)
            + Seq::<u8>::empty()));
    } else {
        let l = labels.drop_last();
        let b = bits.drop_last();
        lemma_scores_block_front(l, b);
        assert(l.drop_first() =~= labels.drop_first().drop_last());
        assert(b.drop_first() =~= bits.drop_first().drop_last());
        assert(labels.drop_first().last() == labels.last());
        assert(bits.drop_first().last() == bits.last());
        assert(scores_block(labels, bits) =~= framed(encode_utf8(labels[0])) + (le_bytes(bits[0] as nat, 4)
            + scores_block(labels.drop_first(), bits.drop_first())));
    }
}

/// Class scores with as many entries on both sides are read back from the
/// front of a message: equal messages hold equal labels and bits.
proof fn lemma_scores_block_front_injective(
    l1: Seq<Seq<char>>,
    b1: Seq<u32>,
    x1: Seq<u8>,
    l2: Seq<Seq<char>>,
    b2: Seq<u32>,
    x2: Seq<u8>,
)
    requires
        l1.len() == b1.len(),
        l2.len() == b2.len(),
        l1.len() == l2.len(),
        forall|i: int| 0 <= i < l1.len() ==> encode_utf8(#[trigger] l1[i]).len() < byte_range(8),
        forall|i: int| 0 <= i < l2.len() ==> encode_utf8(#[trigger] l2[i]).len() < byte_range(8),
        scores_block(l1, b1) + x1 == scores_block(l2, b2) + x2,
    ensures
        l1 == l2,
        b1 == b2,
        x1 == x2,
    decreases l1.len(),
{
    if l1.len() == 0 {
        assert(scores_block(l1, b1) + x1 =~= x1);
        assert(scores_block(l2, b2) + x2 =~= x2);
        assert(l1 =~= l2);
        assert(b1 =~= b2);
    } else {
        lemma_scores_block_front(l1, b1);
        lemma_scores_block_front(l2, b2);
        let r1 = scores_block(l1.drop_first(), b1.drop_first()) + x1;
        let r2 = scores_block(l2.drop_first(), b2.drop_first()) + x2;
        assert(scores_block(l1, b1) + x1 =~= framed(encode_utf8(l1[0])) + (le_bytes(b1[0] as nat, 4) + r1));
        assert(scores_block(l2, b2) + x2 =~= framed(encode_utf8(l2[0])) + (le_bytes(b2[0] as nat, 4) + r2));
        lemma_framed_front(encode_utf8(l1[0]), le_bytes(b1[0] as nat, 4) + r1, encode_utf8(l2[0]), le_bytes(b2[0] as nat, 4) + r2);
        crate::ontology::lemma_encode_injective(l1[0], l2[0]);
        lemma_u32_fits_four_bytes(b1[0]);
        lemma_u32_fits_four_bytes(b2[0]);
        lemma_le_front(b1[0] as nat, r1, b2[0] as nat, r2, 4);
        assert forall|i: int| 0 <= i < l1.drop_first().len() implies encode_utf8(#[trigger] l1.drop_first()[i]).len()
            < byte_range(8) by {
            assert(l1.drop_first()[i] == l1[i + 1]);
        }
        assert forall|i: int| 0 <= i < l2.drop_first().len() implies encode_utf8(#[trigger] l2.drop_first()[i]).len()
            < byte_range(8) by {
            assert(l2.drop_first()[i] == l2[i + 1]);
        }
        lemma_scores_block_front_injective(l1.drop_first(), b1.drop_first(), x1, l2.drop_first(), b2.drop_first(), x2);
        assert(l1 =~= seq![l1[0]] + l1.drop_first());
        assert(l2 =~= seq![l2[0]] + l2.drop_first());
        assert(b1 =~= seq![b1[0]] + b1.drop_first());
        assert(b2 =~= seq![b2[0]] + b2.drop_first());
    }
}

/// The exact message fixes the result's numbers: equal messages come from
/// equal labels with equal probability bits, equal unknown flags, anomaly
/// scores, embeddings and uncertainties.
#[verifier::spinoff_prover]
#[verifier::rlimit(40)]
pub proof fn lemma_exact_message_injective(
    labels1: Seq<Seq<char>>,
    bits1: Seq<u32>,
    unknown1: bool,
    anomaly1: Option<u32>,
    embedding1: Seq<u32>,
    uncertainty1: u32,
    labels2: Seq<Seq<char>>,
    bits2: Seq<u32>,
    unknown2: bool,
    anomaly2: Option<u32>,
    embedding2: Seq<u32>,
    uncertainty2: u32,
)
    requires
        labels1.len() == bits1.len(),
        labels2.len() == bits2.len(),
        labels1.len() < byte_range(8),
        labels2.len() < byte_range(8),
        forall|i: int| 0 <= i < labels1.len() ==> encode_utf8(#[trigger] labels1[i]).len() < byte_range(8),
        forall|i: int| 0 <= i < labels2.len() ==> encode_utf8(#[trigger] labels2[i]).len() < byte_range(8),
        embedding1.len() < byte_range(8),
        embedding2.len() < byte_range(8),
        exact_message(labels1, bits1, unknown1, anomaly1, embedding1, uncertainty1) == exact_message(
            labels2,
            bits2,
            unknown2,
            anomaly2,
            embedding2,
            uncertainty2,
        ),
    ensures
        labels1 == labels2,
        bits1 == bits2,
        unknown1 == unknown2,
        anomaly1 == anomaly2,
        embedding1 == embedding2,
        uncertainty1 == uncertainty2,
{
    let d = framed(exact_domain());
    let e = Seq::<u8>::empty();
    let w1 = counted_words(embedding1) + (le_bytes(uncertainty1 as nat, 4) + e);
    let w2 = counted_words(embedding2) + (le_bytes(uncertainty2 as nat, 4) + e);
    let v1 = flag_byte(unknown1) + (optional_word(anomaly1) + w1);
    let v2 = flag_byte(unknown2) + (optional_word(anomaly2) + w2);
    let t1 = le_bytes(labels1.len(), 8) + (scores_block(labels1, bits1) + v1);
    let t2 = le_bytes(labels2.len(), 8) + (scores_block(labels2, bits2) + v2);
    assert(exact_message(labels1, bits1, unknown1, anomaly1, embedding1, uncertainty1) =~= d + t1);
    assert(exact_message(labels2, bits2, unknown2, anomaly2, embedding2, uncertainty2) =~= d + t2);
    lemma_split_front(d, t1, d, t2);
    lemma_le_front(labels1.len(), scores_block(labels1, bits1) + v1, labels2.len(), scores_block(labels2, bits2) + v2, 8);
    lemma_scores_block_front_injective(labels1, bits1, v1, labels2, bits2, v2);
    lemma_flag_front(unknown1, optional_word(anomaly1) + w1, unknown2, optional_word(anomaly2) + w2);
    lemma_optional_word_front(anomaly1, w1, anomaly2, w2);
    lemma_counted_words_front(embedding1, le_bytes(uncertainty1 as nat, 4) + e, embedding2, le_bytes(uncertainty2 as nat, 4) + e);
    lemma_u32_fits_four_bytes(uncertainty1);
    lemma_u32_fits_four_bytes(uncertainty2);
    lemma_le_front(uncertainty1 as nat, e, uncertainty2 as nat, e, 4);
}

} // verus!
