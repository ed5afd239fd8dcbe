use vstd::prelude::*;
use vstd::string::*;
use vstd::utf8::{encode_utf8, is_ascii_chars, is_ascii_chars_encode_utf8};

use crate::error::SdkError;
use crate::hashing::{sha256, sha256_of};
use crate::io::{ascii_lowercase_bytes, constant_time_eq, hex_encode, hex_text, lower_byte};
use crate::ontology::same_text;
use crate::text::{blank, is_blank};

verus! {

pub const DEFAULT_MAX_PAYLOAD_BYTES: usize = 134_217_728;

/// Describes a model payload: schema version, identity and type, and the
/// payload's length and SHA-256 digest in hexadecimal.
#[derive(Debug, Clone)]
pub struct ArtifactManifest {
    pub schema_version: u32,
    pub model_id: String,
    pub model_type: String,
    pub payload_len: usize,
    pub payload_sha256: String,
}

/// What a payload must satisfy to be loaded.
#[derive(Debug, Clone)]
pub struct ArtifactPolicy {
    pub expected_schema_version: u32,
    pub max_payload_bytes: usize,
    pub allowed_model_types: Vec<String>,
}

/// The lowercase hexadecimal SHA-256 digest of a payload, as text.
pub open spec fn payload_digest_text(payload: Seq<u8>) -> Seq<char> {
    hex_text(sha256_of(payload))
}

pub(crate) fn sha256_hex(bytes: &[u8]) -> (r: String)
    ensures
        r@ == payload_digest_text(bytes@),
{
    hex_encode(&sha256(bytes))
}

impl ArtifactManifest {
    /// The manifest of `payload`; the model id and type must not be blank.
    pub fn for_payload(model_id: String, model_type: String, schema_version: u32, payload: &[u8]) -> (r:
        Result<Self, SdkError>)
        ensures
            r is Ok <==> !is_blank(model_id@) && !is_blank(model_type@),
            r matches Err(e) ==> (e matches SdkError::InvalidArgument(m) && m@
                == "model_id and model_type must be non-empty"@),
            r matches Ok(m) ==> m.schema_version == schema_version && m.model_id@ == model_id@
                && m.model_type@ == model_type@ && m.payload_len == payload@.len()
                && m.payload_sha256@ == payload_digest_text(payload@),
    {
        if blank(model_id.as_str()) || blank(model_type.as_str()) {
            return Err(
                SdkError::InvalidArgument(
                    String::from_str("model_id and model_type must be non-empty"),
                ),
            );
        }
        Ok(
            ArtifactManifest {
                schema_version,
                model_id,
                model_type,
                payload_len: payload.len(),
                payload_sha256: sha256_hex(payload),
            },
        )
    }
}

impl ArtifactPolicy {
    /// Schema version 1, payloads of at most 128 MiB, model types
    /// `prototype` and `reference_bundle`.
    pub fn default_policy() -> (r: Self)
        ensures
            r.expected_schema_version == 1,
            r.max_payload_bytes == DEFAULT_MAX_PAYLOAD_BYTES,
            r.allowed_model_types@.len() == 2,
            r.allowed_model_types@[0]@ == "prototype"@,
            r.allowed_model_types@[1]@ == "reference_bundle"@,
    {
        let mut allowed_model_types: Vec<String> = Vec::new();
        allowed_model_types.push(String::from_str("prototype"));
        allowed_model_types.push(String::from_str("reference_bundle"));
        ArtifactPolicy {
            expected_schema_version: 1,
            max_payload_bytes: DEFAULT_MAX_PAYLOAD_BYTES,
            allowed_model_types,
        }
    }
}

impl Default for ArtifactPolicy {
    fn default() -> (r: Self)
        ensures
            r.expected_schema_version == 1,
            r.max_payload_bytes == DEFAULT_MAX_PAYLOAD_BYTES,
            r.allowed_model_types@.len() == 2,
            r.allowed_model_types@[0]@ == "prototype"@,
            r.allowed_model_types@[1]@ == "reference_bundle"@,
    {
        ArtifactPolicy::default_policy()
    }
}

/// Whether the policy allows this model type.
pub open spec fn type_allowed(policy: &ArtifactPolicy, model_type: Seq<char>) -> bool {
    exists|i: int|
        0 <= i < policy.allowed_model_types@.len() && (#[trigger] policy.allowed_model_types@[i])@
            == model_type
}

/// The manifest's digest text compares equal to the payload's: the payload's
/// lowercase digest against the manifest digest with capitals lowered.
pub open spec fn digest_matches(manifest: &ArtifactManifest, payload: Seq<u8>) -> bool {
    encode_utf8(payload_digest_text(payload)) == encode_utf8(manifest.payload_sha256@).map_values(
        |b: u8| lower_byte(b),
    )
}

/// Checks a payload against its manifest and a policy, in this order: schema
/// version, size limit, length, model type, digest.
pub fn verify_payload(manifest: &ArtifactManifest, payload: &[u8], policy: &ArtifactPolicy) -> (r:
    Result<(), SdkError>)
    ensures
        r is Ok <==> manifest.schema_version == policy.expected_schema_version && payload@.len()
            <= policy.max_payload_bytes && payload@.len() == manifest.payload_len && type_allowed(
            policy,
            manifest.model_type@,
        ) && digest_matches(manifest, payload@),
        manifest.schema_version != policy.expected_schema_version ==> r == Err::<(), SdkError>(
            SdkError::SchemaMismatch {
                expected: policy.expected_schema_version,
                actual: manifest.schema_version,
            },
        ),
        manifest.schema_version == policy.expected_schema_version && payload@.len()
            > policy.max_payload_bytes ==> r == Err::<(), SdkError>(
            SdkError::ArtifactTooLarge { actual: payload@.len() as usize, max: policy.max_payload_bytes },
        ),
        manifest.schema_version == policy.expected_schema_version && payload@.len()
            <= policy.max_payload_bytes && payload@.len() != manifest.payload_len ==> r == Err::<
            (),
            SdkError,
        >(
            SdkError::PayloadLengthMismatch {
                expected: manifest.payload_len,
                actual: payload@.len() as usize,
            },
        ),
        manifest.schema_version == policy.expected_schema_version && payload@.len()
            <= policy.max_payload_bytes && payload@.len() == manifest.payload_len && !type_allowed(
            policy,
            manifest.model_type@,
        ) ==> (r matches Err(SdkError::InvalidArgument(m)) && m@ == "model type '"@
            + manifest.model_type@ + "' is not allowed"@),
        manifest.schema_version == policy.expected_schema_version && payload@.len()
            <= policy.max_payload_bytes && payload@.len() == manifest.payload_len && type_allowed(
            policy,
            manifest.model_type@,
        ) && !digest_matches(manifest, payload@) ==> r == Err::<(), SdkError>(
            SdkError::DigestMismatch,
        ),
{
    if manifest.schema_version != policy.expected_schema_version {
        return Err(
            SdkError::SchemaMismatch {
                expected: policy.expected_schema_version,
                actual: manifest.schema_version,
            },
        );
    }
    if payload.len() > policy.max_payload_bytes {
        return Err(
            SdkError::ArtifactTooLarge { actual: payload.len(), max: policy.max_payload_bytes },
        );
    }
    if payload.len() != manifest.payload_len {
        return Err(
            SdkError::PayloadLengthMismatch { expected: manifest.payload_len, actual: payload.len() },
        );
    }
    let mut allowed = false;
    let mut i: usize = 0;
    while i < policy.allowed_model_types.len()
        invariant
            i <= policy.allowed_model_types@.len(),
            allowed == exists|k: int|
                0 <= k < i && (#[trigger] policy.allowed_model_types@[k])@ == manifest.model_type@,
        decreases policy.allowed_model_types.len() - i,
    {
        if same_text(policy.allowed_model_types[i].as_str(), manifest.model_type.as_str()) {
            allowed = true;
        }
        i += 1;
    }
    if !allowed {
        let message = String::from_str("model type '").concat(manifest.model_type.as_str()).concat(
            "' is not allowed",
        );
        return Err(SdkError::InvalidArgument(message));
    }
    let expected = ascii_lowercase_bytes(manifest.payload_sha256.as_str());
    let actual = sha256_hex(payload);
    if !constant_time_eq(actual.as_str().as_bytes(), expected.as_slice()) {
        return Err(SdkError::DigestMismatch);
    }
    Ok(())
}

/// A manifest made for a payload accepts that payload under any policy that
/// expects its schema version, admits its size and allows its model type.
pub proof fn lemma_manifest_accepts_its_payload(
    manifest: &ArtifactManifest,
    payload: Seq<u8>,
    policy: &ArtifactPolicy,
)
    requires
        manifest.payload_sha256@ == payload_digest_text(payload),
        manifest.payload_len == payload.len(),
        manifest.schema_version == policy.expected_schema_version,
        payload.len() <= policy.max_payload_bytes,
        type_allowed(policy, manifest.model_type@),
    ensures
        digest_matches(manifest, payload),
{
    let t = payload_digest_text(payload);
    let d = sha256_of(payload);
    assert forall|i: int| 0 <= i < t.len() implies '\0' <= #[trigger] t[i] <= '\u{7f}' && (t[i]
        as u8) < 65 || (t[i] as u8) > 90 by {
        let b = d[i / 2];
        assert(b / 16 < 16 && b % 16 < 16);
    }
    assert(is_ascii_chars(t));
    is_ascii_chars_encode_utf8(t);
    let e = encode_utf8(t);
    assert forall|i: int| 0 <= i < e.len() implies lower_byte(#[trigger] e[i]) == e[i] by {
        assert(t[i] as u8 == e[i]);
        let b = d[i / 2];
        assert(b / 16 < 16 && b % 16 < 16);
    }
    assert(e.map_values(|b: u8| lower_byte(b)) =~= e);
}

} // verus!
