use vstd::prelude::*;
use vstd::string::*;

use crate::error::SdkError;

verus! {

/// Where a computation runs.
#[derive(Debug, Clone, PartialEq, Eq)]
pub enum BackendKind {
    Cpu,
    External(String),
}

/// The portable CPU backend.
#[derive(Debug, Clone, Copy, Default)]
pub struct CpuBackend;

impl CpuBackend {
    pub fn kind(&self) -> (r: BackendKind)
        ensures
            r is Cpu,
    {
        BackendKind::Cpu
    }
}

/// The largest of the row lengths, zero for none.
pub open spec fn longest(lens: Seq<usize>) -> usize
    decreases lens.len(),
{
    if lens.len() == 0 {
        0
    } else {
        let rest = longest(lens.drop_last());
        if lens.last() > rest {
            lens.last()
        } else {
            rest
        }
    }
}

/// A matrix with rows of `row_lens` can multiply a vector of `vector_len`:
/// both are non-empty and every row is as long as the vector.
pub fn check_matvec_shape(row_lens: &[usize], vector_len: usize) -> (r: Result<(), SdkError>)
    ensures
        ({
            let nonempty = row_lens@.len() > 0 && vector_len > 0;
            let aligned = forall|i: int| 0 <= i < row_lens@.len() ==> row_lens@[i] == vector_len;
            &&& r is Ok <==> nonempty && aligned
            &&& r matches Err(e) ==> if !nonempty {
                e matches SdkError::InvalidArgument(m) && m@ == "matrix and vector must be non-empty"@
            } else {
                e == SdkError::DimensionMismatch { expected: vector_len, actual: longest(row_lens@) }
            }
        }),
{
    if row_lens.len() == 0 || vector_len == 0 {
        return Err(SdkError::InvalidArgument(String::from_str("matrix and vector must be non-empty")));
    }
    let mut aligned = true;
    let mut widest: usize = 0;
    let mut i: usize = 0;
    while i < row_lens.len()
        invariant
            i <= row_lens@.len(),
            widest == longest(row_lens@.take(i as int)),
            aligned == (forall|j: int| 0 <= j < i ==> row_lens@[j] == vector_len),
        decreases row_lens.len() - i,
    {
        proof {
            assert(row_lens@.take(i + 1).drop_last() =~= row_lens@.take(i as int));
        }
        if row_lens[i] != vector_len {
            aligned = false;
        }
        if row_lens[i] > widest {
            widest = row_lens[i];
        }
        i += 1;
    }
    proof {
        assert(row_lens@.take(i as int) =~= row_lens@);
    }
    if !aligned {
        return Err(SdkError::DimensionMismatch { expected: vector_len, actual: widest });
    }
    Ok(())
}

} // verus!
