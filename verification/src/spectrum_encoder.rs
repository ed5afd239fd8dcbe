use vstd::prelude::*;
use vstd::string::*;

use crate::embedding::{dims_error, dims_ok, HashProjectionEncoder};
use crate::error::SdkError;
use crate::iq::{IqFeatureSchema, ReferenceIqFeatureExtractor, BASE_FEATURES, MAX_REFERENCE_SPECTRUM_BINS};

verus! {

/// A spectrum encoder: the reference I/Q feature extractor followed by a
/// hash projection of its features.
#[derive(Debug, Clone, Copy)]
pub struct ReferenceSpectrumEncoder {
    extractor: ReferenceIqFeatureExtractor,
    projection: HashProjectionEncoder,
}

impl ReferenceSpectrumEncoder {
    pub closed spec fn spec_extractor(&self) -> ReferenceIqFeatureExtractor {
        self.extractor
    }

    pub closed spec fn spec_projection(&self) -> HashProjectionEncoder {
        self.projection
    }

    /// An encoder with `spectrum_bins` bands (schema v2) projected to
    /// `output_dim` values.
    pub fn new(spectrum_bins: usize, output_dim: usize, seed: u64) -> (r: Result<Self, SdkError>)
        ensures
            ({
                let bins_ok = 1 <= spectrum_bins <= MAX_REFERENCE_SPECTRUM_BINS;
                let input_dim = (BASE_FEATURES + spectrum_bins) as usize;
                &&& r is Ok <==> bins_ok && dims_ok(input_dim, output_dim)
                &&& r matches Ok(x) ==> {
                    &&& x.spec_extractor().spec_spectrum_bins() == spectrum_bins
                    &&& x.spec_extractor().spec_schema() == IqFeatureSchema::V2FullBandShifted
                    &&& x.spec_projection().spec_input_dim() == input_dim
                    &&& x.spec_projection().spec_output_dim() == output_dim
                    &&& x.spec_projection().spec_seed() == seed
                }
                &&& r matches Err(e) ==> if !bins_ok {
                    e == SdkError::DimensionLimit { actual: spectrum_bins, max: MAX_REFERENCE_SPECTRUM_BINS }
                } else {
                    dims_error(input_dim, output_dim, e)
                }
            }),
    {
        let extractor = ReferenceIqFeatureExtractor::new(spectrum_bins)?;
        let projection = HashProjectionEncoder::new(extractor.feature_dim(), output_dim, seed)?;
        Ok(ReferenceSpectrumEncoder { extractor, projection })
    }

    /// An encoder from stored parts, unchecked.
    pub fn from_parts(extractor: ReferenceIqFeatureExtractor, projection: HashProjectionEncoder) -> (r: Self)
        ensures
            r.spec_extractor() == extractor,
            r.spec_projection() == projection,
    {
        ReferenceSpectrumEncoder { extractor, projection }
    }

    pub fn extractor(&self) -> (r: ReferenceIqFeatureExtractor)
        ensures
            r == self.spec_extractor(),
    {
        self.extractor
    }

    pub fn projection(&self) -> (r: HashProjectionEncoder)
        ensures
            r == self.spec_projection(),
    {
        self.projection
    }
}

/// A mask for masked reconstruction has one flag per sample.
pub fn validate_mask(sample_count: usize, mask_len: usize) -> (r: Result<(), SdkError>)
    ensures
        r is Ok <==> sample_count == mask_len,
        r is Err ==> r == Err::<(), SdkError>(
            SdkError::DimensionMismatch { expected: sample_count, actual: mask_len },
        ),
{
    if mask_len != sample_count {
        return Err(SdkError::DimensionMismatch { expected: sample_count, actual: mask_len });
    }
    Ok(())
}

/// The embeddings of a history share one dimension, which is returned; an
/// empty history has none.
pub fn common_dimension(dims: &[usize]) -> (r: Result<usize, SdkError>)
    ensures
        dims@.len() == 0 ==> r == Err::<usize, SdkError>(SdkError::EmptyDataset),
        dims@.len() > 0 ==> (r is Ok <==> forall|i: int| 0 <= i < dims@.len() ==> #[trigger] dims@[i] == dims@[0]),
        r matches Ok(d) ==> d == dims@[0],
        dims@.len() > 0 && r is Err ==> (r matches Err(SdkError::InvalidArgument(m)) && m@
            == "history embeddings must share a dimension"@),
{
    if dims.len() == 0 {
        return Err(SdkError::EmptyDataset);
    }
    let first = dims[0];
    let mut i: usize = 1;
    while i < dims.len()
        invariant
            dims@.len() > 0,
            first == dims@[0],
            1 <= i <= dims@.len(),
            forall|j: int| 0 <= j < i ==> #[trigger] dims@[j] == first,
        decreases dims.len() - i,
    {
        if dims[i] != first {
            return Err(
                SdkError::InvalidArgument(String::from_str("history embeddings must share a dimension")),
            );
        }
        i += 1;
    }
    Ok(first)
}

} // verus!
