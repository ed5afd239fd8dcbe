use vstd::prelude::*;
use vstd::string::*;

use crate::error::SdkError;

verus! {

/// The largest parameter matrix that is profiled.
pub const MAX_PROFILED_PARAMETERS: usize = 16_777_216;

/// What a deployment needs to know of a parameter matrix.
#[derive(Debug, Clone, Copy, PartialEq, Eq, Structural)]
pub struct EdgeParameterProfile {
    pub parameter_count: usize,
    pub nonzero_parameters: usize,
    pub bytes_f32: usize,
    pub bytes_i8: usize,
}

/// One row of a parameter matrix: its length, whether all its values are
/// finite, and how many of them are not zero.
#[derive(Debug, Clone, Copy, PartialEq, Eq, Structural)]
pub struct RowSummary {
    pub len: usize,
    pub all_finite: bool,
    pub nonzero: usize,
}

/// The total length of the first `k` rows.
pub open spec fn sum_lens(rows: Seq<RowSummary>, k: int) -> int
    decreases k,
{
    if k <= 0 {
        0
    } else {
        sum_lens(rows, k - 1) + rows[k - 1].len
    }
}

/// The total non-zero count of the first `k` rows.
pub open spec fn sum_nonzero(rows: Seq<RowSummary>, k: int) -> int
    decreases k,
{
    if k <= 0 {
        0
    } else {
        sum_nonzero(rows, k - 1) + rows[k - 1].nonzero
    }
}

/// Row `k` is acceptable and the running totals through it fit in `usize`.
pub open spec fn row_ok(rows: Seq<RowSummary>, k: int) -> bool {
    &&& rows[k].len > 0
    &&& rows[k].all_finite
    &&& sum_lens(rows, k + 1) <= usize::MAX
    &&& sum_nonzero(rows, k + 1) <= usize::MAX
}

/// The error that the first unacceptable row, `k`, gets.
pub open spec fn row_error(rows: Seq<RowSummary>, k: int, e: SdkError) -> bool {
    if rows[k].len == 0 {
        e == SdkError::EmptyFeatures
    } else if !rows[k].all_finite {
        e matches SdkError::InvalidArgument(m) && m@ == "parameters must be finite"@
    } else if sum_lens(rows, k + 1) > usize::MAX {
        e matches SdkError::InvalidArgument(m) && m@ == "parameter count overflow"@
    } else {
        e matches SdkError::InvalidArgument(m) && m@ == "nonzero count overflow"@
    }
}

/// The profile of a parameter matrix with the given rows: its parameter and
/// non-zero counts and its size stored as `f32` and as `i8`.
pub fn profile_parameter_rows(rows: &[RowSummary]) -> (r: Result<EdgeParameterProfile, SdkError>)
    ensures
        ({
            let v = rows@;
            let all_ok = forall|k: int| 0 <= k < v.len() ==> #[trigger] row_ok(v, k);
            let total = sum_lens(v, v.len() as int);
            &&& r is Ok <==> v.len() > 0 && all_ok && total <= MAX_PROFILED_PARAMETERS
            &&& v.len() == 0 ==> r == Err::<EdgeParameterProfile, SdkError>(SdkError::EmptyDataset)
            &&& r matches Err(e) ==> v.len() == 0 || (exists|k: int|
                0 <= k < v.len() && !row_ok(v, k) && (forall|j: int| 0 <= j < k ==> #[trigger] row_ok(v, j))
                    && row_error(v, k, e)) || (all_ok && e == SdkError::DimensionLimit {
                actual: total as usize,
                max: MAX_PROFILED_PARAMETERS,
            })
            &&& r matches Ok(p) ==> p == EdgeParameterProfile {
                parameter_count: total as usize,
                nonzero_parameters: sum_nonzero(v, v.len() as int) as usize,
                bytes_f32: (4 * total) as usize,
                bytes_i8: total as usize,
            }
        }),
{
    if rows.len() == 0 {
        return Err(SdkError::EmptyDataset);
    }
    let mut parameters: usize = 0;
    let mut nonzero: usize = 0;
    let mut k: usize = 0;
    while k < rows.len()
        invariant
            k <= rows@.len(),
            rows@.len() > 0,
            parameters == sum_lens(rows@, k as int),
            nonzero == sum_nonzero(rows@, k as int),
            forall|j: int| 0 <= j < k ==> #[trigger] row_ok(rows@, j),
        decreases rows.len() - k,
    {
        let row = rows[k];
        if row.len == 0 {
            proof {
                assert(!row_ok(rows@, k as int) && row_error(rows@, k as int, SdkError::EmptyFeatures));
            }
            return Err(SdkError::EmptyFeatures);
        }
        if !row.all_finite {
            let e = SdkError::InvalidArgument(String::from_str("parameters must be finite"));
            proof {
                assert(!row_ok(rows@, k as int) && row_error(rows@, k as int, e));
            }
            return Err(e);
        }
        parameters = match parameters.checked_add(row.len) {
            Some(n) => n,
            None => {
                let e = SdkError::InvalidArgument(String::from_str("parameter count overflow"));
                proof {
                    assert(!row_ok(rows@, k as int) && row_error(rows@, k as int, e));
                }
                return Err(e);
            },
        };
        nonzero = match nonzero.checked_add(row.nonzero) {
            Some(n) => n,
            None => {
                let e = SdkError::InvalidArgument(String::from_str("nonzero count overflow"));
                proof {
                    assert(!row_ok(rows@, k as int) && row_error(rows@, k as int, e));
                }
                return Err(e);
            },
        };
        proof {
            assert(row_ok(rows@, k as int));
        }
        k += 1;
    }
    if parameters > MAX_PROFILED_PARAMETERS {
        return Err(SdkError::DimensionLimit { actual: parameters, max: MAX_PROFILED_PARAMETERS });
    }
    Ok(EdgeParameterProfile {
        parameter_count: parameters,
        nonzero_parameters: nonzero,
        bytes_f32: parameters * 4,
        bytes_i8: parameters,
    })
}

/// The number of inferences an encoder benchmark runs: one per observation
/// and run.
pub fn benchmark_inferences(observations: usize, runs: usize) -> (r: Result<usize, SdkError>)
    ensures
        r is Ok <==> observations > 0 && runs > 0 && observations * runs <= usize::MAX,
        r matches Ok(n) ==> n == observations * runs,
        observations == 0 ==> r == Err::<usize, SdkError>(SdkError::EmptyDataset),
        observations > 0 && runs == 0 ==> (r matches Err(SdkError::InvalidArgument(m)) && m@
            == "runs must be positive"@),
        observations > 0 && runs > 0 && observations * runs > usize::MAX ==> (r matches Err(
            SdkError::InvalidArgument(m),
        ) && m@ == "benchmark inference count overflow"@),
{
    if observations == 0 {
        return Err(SdkError::EmptyDataset);
    }
    if runs == 0 {
        return Err(SdkError::InvalidArgument(String::from_str("runs must be positive")));
    }
    match observations.checked_mul(runs) {
        Some(n) => Ok(n),
        None => Err(SdkError::InvalidArgument(String::from_str("benchmark inference count overflow"))),
    }
}

} // verus!
