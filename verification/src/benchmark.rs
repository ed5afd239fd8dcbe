use vstd::prelude::*;
use vstd::string::*;

use crate::error::SdkError;

verus! {

/// How many unmeasured and measured passes a benchmark makes.
#[derive(Debug, Clone, Copy, PartialEq, Eq, Structural)]
pub struct BenchmarkConfig {
    pub warmup_runs: usize,
    pub measured_runs: usize,
}

impl Default for BenchmarkConfig {
    fn default() -> (r: Self)
        ensures
            r == (BenchmarkConfig { warmup_runs: 2, measured_runs: 10 }),
    {
        BenchmarkConfig { warmup_runs: 2, measured_runs: 10 }
    }
}

/// The number of predictions a pipeline benchmark over `observations`
/// observations measures: one per observation and measured pass, saturating.
pub fn measured_predictions(observations: usize, config: BenchmarkConfig) -> (r: Result<usize, SdkError>)
    ensures
        r is Ok <==> observations > 0 && config.measured_runs > 0,
        observations == 0 ==> r == Err::<usize, SdkError>(SdkError::EmptyDataset),
        observations > 0 && config.measured_runs == 0 ==> (r matches Err(SdkError::InvalidArgument(m))
            && m@ == "measured_runs must be positive"@),
        r matches Ok(n) ==> n == if observations * config.measured_runs > usize::MAX {
            usize::MAX as int
        } else {
            observations * config.measured_runs
        },
{
    if observations == 0 {
        return Err(SdkError::EmptyDataset);
    }
    if config.measured_runs == 0 {
        return Err(SdkError::InvalidArgument(String::from_str("measured_runs must be positive")));
    }
    match observations.checked_mul(config.measured_runs) {
        Some(n) => Ok(n),
        None => Ok(usize::MAX),
    }
}

} // verus!
