use vstd::prelude::*;
use vstd::string::*;
use vstd::arithmetic::div_mod::lemma_fundamental_div_mod_converse;

use crate::error::SdkError;
use crate::text::{blank, is_blank};

verus! {

pub const MAX_IQ_SAMPLES: usize = 16_384;
pub const MIN_IQ_SAMPLES: usize = 16;
pub const MAX_REFERENCE_SPECTRUM_BINS: usize = 64;
pub const MAX_CAPTURE_ID_BYTES: usize = 4_096;
pub const BASE_FEATURES: usize = 12;

/// Which spectrum features the reference extractor produces.
#[derive(Debug, Clone, Copy, PartialEq, Eq, Structural)]
pub enum IqFeatureSchema {
    /// The v0.5 near-DC spectrum tail.
    V1NearDc,
    /// Hann-windowed FFT power bands over the full shifted band.
    V2FullBandShifted,
}

/// The schema of extractors stored before schemas were recorded.
pub fn legacy_iq_feature_schema() -> (r: IqFeatureSchema)
    ensures
        r == IqFeatureSchema::V1NearDc,
{
    IqFeatureSchema::V1NearDc
}

/// Extracts twelve capture statistics and `spectrum_bins` normalized spectrum
/// powers from an I/Q capture.
#[derive(Debug, Clone, Copy)]
pub struct ReferenceIqFeatureExtractor {
    spectrum_bins: usize,
    schema: IqFeatureSchema,
}

impl ReferenceIqFeatureExtractor {
    #[verifier::type_invariant]
    spec fn well_formed(self) -> bool {
        1 <= self.spectrum_bins <= MAX_REFERENCE_SPECTRUM_BINS
    }

    pub closed spec fn spec_spectrum_bins(&self) -> usize {
        self.spectrum_bins
    }

    pub closed spec fn spec_schema(&self) -> IqFeatureSchema {
        self.schema
    }

    /// A v2 extractor with `spectrum_bins` bands.
    pub fn new(spectrum_bins: usize) -> (r: Result<Self, SdkError>)
        ensures
            r is Ok <==> 1 <= spectrum_bins <= MAX_REFERENCE_SPECTRUM_BINS,
            r matches Ok(x) ==> x.spec_spectrum_bins() == spectrum_bins && x.spec_schema()
                == IqFeatureSchema::V2FullBandShifted,
            r is Err ==> r == Err::<Self, SdkError>(
                SdkError::DimensionLimit { actual: spectrum_bins, max: MAX_REFERENCE_SPECTRUM_BINS },
            ),
    {
        Self::with_schema(spectrum_bins, IqFeatureSchema::V2FullBandShifted)
    }

    /// A legacy v1 extractor with `spectrum_bins` bands.
    pub fn legacy_v1(spectrum_bins: usize) -> (r: Result<Self, SdkError>)
        ensures
            r is Ok <==> 1 <= spectrum_bins <= MAX_REFERENCE_SPECTRUM_BINS,
            r matches Ok(x) ==> x.spec_spectrum_bins() == spectrum_bins && x.spec_schema()
                == IqFeatureSchema::V1NearDc,
            r is Err ==> r == Err::<Self, SdkError>(
                SdkError::DimensionLimit { actual: spectrum_bins, max: MAX_REFERENCE_SPECTRUM_BINS },
            ),
    {
        Self::with_schema(spectrum_bins, IqFeatureSchema::V1NearDc)
    }

    /// An extractor with 1 to 64 bands and the given schema.
    pub fn with_schema(spectrum_bins: usize, schema: IqFeatureSchema) -> (r: Result<Self, SdkError>)
        ensures
            r is Ok <==> 1 <= spectrum_bins <= MAX_REFERENCE_SPECTRUM_BINS,
            r matches Ok(x) ==> x.spec_spectrum_bins() == spectrum_bins && x.spec_schema() == schema,
            r is Err ==> r == Err::<Self, SdkError>(
                SdkError::DimensionLimit { actual: spectrum_bins, max: MAX_REFERENCE_SPECTRUM_BINS },
            ),
    {
        if spectrum_bins == 0 || spectrum_bins > MAX_REFERENCE_SPECTRUM_BINS {
            return Err(
                SdkError::DimensionLimit { actual: spectrum_bins, max: MAX_REFERENCE_SPECTRUM_BINS },
            );
        }
        Ok(ReferenceIqFeatureExtractor { spectrum_bins, schema })
    }

    /// The default extractor: 16 bands, schema v2.
    pub fn default_extractor() -> (r: Self)
        ensures
            r.spec_spectrum_bins() == 16,
            r.spec_schema() == IqFeatureSchema::V2FullBandShifted,
    {
        ReferenceIqFeatureExtractor { spectrum_bins: 16, schema: IqFeatureSchema::V2FullBandShifted }
    }

    /// An extractor from stored fields, with the bands checked as
    /// `with_schema` does.
    pub fn from_parts(spectrum_bins: usize, schema: IqFeatureSchema) -> (r: Result<Self, SdkError>)
        ensures
            r is Ok <==> 1 <= spectrum_bins <= MAX_REFERENCE_SPECTRUM_BINS,
            r matches Ok(x) ==> x.spec_spectrum_bins() == spectrum_bins && x.spec_schema() == schema,
    {
        Self::with_schema(spectrum_bins, schema)
    }

    pub fn spectrum_bins(&self) -> (r: usize)
        ensures
            r == self.spec_spectrum_bins(),
            1 <= r <= MAX_REFERENCE_SPECTRUM_BINS,
    {
        proof {
            use_type_invariant(self);
        }
        self.spectrum_bins
    }

    pub fn schema(&self) -> (r: IqFeatureSchema)
        ensures
            r == self.spec_schema(),
    {
        self.schema
    }

    /// Twelve statistics plus one value per band.
    pub fn feature_dim(&self) -> (r: usize)
        ensures
            r == BASE_FEATURES + self.spec_spectrum_bins(),
    {
        proof {
            use_type_invariant(self);
        }
        BASE_FEATURES + self.spectrum_bins
    }
}

impl Default for ReferenceIqFeatureExtractor {
    fn default() -> (r: Self)
        ensures
            r.spec_spectrum_bins() == 16,
            r.spec_schema() == IqFeatureSchema::V2FullBandShifted,
    {
        ReferenceIqFeatureExtractor::default_extractor()
    }
}

/// Checks the id of a capture: not blank and at most 4096 bytes.
pub fn validate_capture_id(id: &str) -> (r: Result<(), SdkError>)
    ensures
        r is Ok <==> crate::text::text_ok(id@, MAX_CAPTURE_ID_BYTES as nat),
        r matches Err(e) ==> (e matches SdkError::InvalidArgument(m) && m@
            == "I/Q capture id must be non-empty and bounded"@),
{
    if blank(id) || id.as_bytes().len() > MAX_CAPTURE_ID_BYTES {
        return Err(
            SdkError::InvalidArgument(String::from_str("I/Q capture id must be non-empty and bounded")),
        );
    }
    Ok(())
}

/// Checks the number of samples of a capture: at least 16, at most 16384.
/// Shorter captures are refused rather than turned into a spectrum that the
/// window has destroyed.
pub fn validate_sample_count(count: usize) -> (r: Result<(), SdkError>)
    ensures
        r is Ok <==> MIN_IQ_SAMPLES <= count <= MAX_IQ_SAMPLES,
        count == 0 ==> r == Err::<(), SdkError>(SdkError::EmptyFeatures),
        1 <= count < MIN_IQ_SAMPLES ==> (r matches Err(SdkError::InvalidArgument(m)) && m@
            == "I/Q capture must contain at least MIN_IQ_SAMPLES samples"@),
        count > MAX_IQ_SAMPLES ==> r == Err::<(), SdkError>(
            SdkError::DimensionLimit { actual: count, max: MAX_IQ_SAMPLES },
        ),
{
    if count == 0 {
        return Err(SdkError::EmptyFeatures);
    }
    if count < MIN_IQ_SAMPLES {
        return Err(
            SdkError::InvalidArgument(
                String::from_str("I/Q capture must contain at least MIN_IQ_SAMPLES samples"),
            ),
        );
    }
    if count > MAX_IQ_SAMPLES {
        return Err(SdkError::DimensionLimit { actual: count, max: MAX_IQ_SAMPLES });
    }
    Ok(())
}

/// Checks that a capture is long enough for the extractor: at least 16
/// samples and at least one sample per band.
pub fn validate_extraction_shape(count: usize, spectrum_bins: usize) -> (r: Result<(), SdkError>)
    ensures
        r is Ok <==> count >= MIN_IQ_SAMPLES && spectrum_bins <= count,
        count < MIN_IQ_SAMPLES ==> (r matches Err(SdkError::InvalidArgument(m)) && m@
            == "I/Q capture must contain at least MIN_IQ_SAMPLES samples"@),
        count >= MIN_IQ_SAMPLES && spectrum_bins > count ==> r == Err::<(), SdkError>(
            SdkError::DimensionLimit { actual: spectrum_bins, max: count },
        ),
{
    if count < MIN_IQ_SAMPLES {
        return Err(
            SdkError::InvalidArgument(
                String::from_str("I/Q capture must contain at least MIN_IQ_SAMPLES samples"),
            ),
        );
    }
    if spectrum_bins > count {
        return Err(SdkError::DimensionLimit { actual: spectrum_bins, max: count });
    }
    Ok(())
}

/// In the FFT-shifted order the spectrum starts at `-fs/2`: shifted cell `s`
/// holds FFT bin `(s + ceil(n/2)) mod n`.
pub open spec fn shifted_source(shifted: nat, n: nat) -> nat {
    (shifted + (n + 1) / 2) % n
}

/// The coarse band of shifted cell `s`: the centre of the cell, at
/// `(s + 1/2) / n` of the band, scaled to `bins` bands.
pub open spec fn band_of(shifted: nat, n: nat, bins: nat) -> nat {
    ((2 * shifted + 1) * bins) / (2 * n)
}

/// The FFT bin held by shifted cell `shifted` of an `n`-point spectrum.
pub fn fft_source_index(shifted: usize, n: usize) -> (r: usize)
    requires
        shifted < n,
        n <= MAX_IQ_SAMPLES,
    ensures
        r == shifted_source(shifted as nat, n as nat),
        r < n,
{
    (shifted + (n + 1) / 2) % n
}

/// The coarse band that shifted cell `shifted` of an `n`-point spectrum
/// falls in, out of `bins` bands.
pub fn coarse_band(shifted: usize, n: usize, bins: usize) -> (r: usize)
    requires
        shifted < n,
        n <= MAX_IQ_SAMPLES,
        1 <= bins <= MAX_REFERENCE_SPECTRUM_BINS,
    ensures
        r == band_of(shifted as nat, n as nat, bins as nat),
        r < bins,
{
    proof {
        assert((2 * shifted + 1) * bins < 2 * n * bins) by (nonlinear_arith)
            requires
                shifted < n,
                bins >= 1,
        ;
        assert((2 * shifted + 1) * bins <= 2 * MAX_IQ_SAMPLES * MAX_REFERENCE_SPECTRUM_BINS) by (nonlinear_arith)
            requires
                shifted < n,
                n <= MAX_IQ_SAMPLES,
                bins <= MAX_REFERENCE_SPECTRUM_BINS,
        ;
        lemma_quotient_below((2 * shifted + 1) * bins, 2 * n, bins as int);
    }
    ((2 * shifted + 1) * bins) / (2 * n)
}

/// The signed frequency index of cell `bin` of a `bins`-point spectrum: the
/// representative of `bin` modulo `bins` that lies in `[-bins/2, bins/2)`, so
/// that its offset `index * fs / bins` lies in `[-fs/2, fs/2)`.
pub fn signed_frequency_bin(bin: usize, bins: usize) -> (r: i64)
    requires
        bin < bins,
        bins <= MAX_IQ_SAMPLES,
    ensures
        r == (if 2 * bin < bins {
            bin as int
        } else {
            bin - bins
        }),
        -(bins as int) <= 2 * r < bins,
        r == bin || r == bin - bins,
{
    if 2 * bin < bins {
        bin as i64
    } else {
        bin as i64 - bins as i64
    }
}

proof fn lemma_quotient_below(x: int, d: int, b: int)
    requires
        d > 0,
        0 <= x < d * b,
    ensures
        x / d < b,
{
    assert(x / d < b) by (nonlinear_arith)
        requires
            d > 0,
            0 <= x < d * b,
    ;
}

/// The centring guarantee of the coarse bands: when the capture has at least
/// as many samples as bands, DC (FFT bin 0) lands in the centre band
/// `bins / 2`, for even and odd capture lengths alike.
pub proof fn lemma_dc_in_centre_band(n: nat, bins: nat)
    requires
        1 <= bins <= n,
    ensures
        shifted_source(n / 2, n) == 0,
        band_of(n / 2, n, bins) == bins / 2,
{
    let m = n / 2;
    let k = bins / 2;
    assert(shifted_source(m, n) == 0) by {
        assert(m + (n + 1) / 2 == n);
        lemma_fundamental_div_mod_converse(n as int, n as int, 1, 0);
    }
    let x = (2 * m + 1) * bins;
    if n % 2 == 1 {
        assert(2 * m + 1 == n);
        assert(x == k * (2 * n) + (bins % 2) * n) by (nonlinear_arith)
            requires
                x == (2 * m + 1) * bins,
                2 * m + 1 == n,
                bins == 2 * k + bins % 2,
        ;
        assert((bins % 2) * n < 2 * n) by (nonlinear_arith)
            requires
                bins % 2 < 2,
                n >= 1,
        ;
        lemma_fundamental_div_mod_converse(x as int, (2 * n) as int, k as int, ((bins % 2) * n) as int);
    } else {
        assert(n == 2 * m);
        let r = x - k * (2 * n);
        assert(r == (bins % 2) * (2 * m) + bins) by (nonlinear_arith)
            requires
                x == (2 * m + 1) * bins,
                n == 2 * m,
                bins == 2 * k + bins % 2,
                r == x - k * (2 * n),
        ;
        assert(0 <= r < 2 * n) by (nonlinear_arith)
            requires
                r == (bins % 2) * (2 * m) + bins,
                n == 2 * m,
                bins <= n,
                bins % 2 == 1 ==> bins < n,
                bins % 2 < 2,
                bins >= 1,
        ;
        lemma_fundamental_div_mod_converse(x as int, (2 * n) as int, k as int, r as int);
    }
}

} // verus!
