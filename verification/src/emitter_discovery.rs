use vstd::prelude::*;
use vstd::string::*;

use crate::error::SdkError;
use crate::text::{decimal_padded, push_decimal};

verus! {

/// Where an emitter hypothesis stands.
#[derive(Debug, Clone, Copy, PartialEq, Eq, Structural)]
pub enum EmitterHypothesisStatus {
    Known,
    ProvisionalUnknown,
    EnrolledLocal,
    Abstain,
}

/// The id given to the `n`-th provisional unknown emitter: `rf-unknown-`
/// and `n` in at least four digits.
pub fn provisional_emitter_id(n: u64) -> (r: String)
    ensures
        r@ == "rf-unknown-"@ + decimal_padded(n as nat, 4),
{
    let mut s = String::from_str("rf-unknown-");
    proof {
        reveal_strlit("rf-unknown-");
    }
    push_decimal(&mut s, n, 4);
    s
}

/// Allocates the id of the next provisional unknown emitter from the counter
/// `next`, and returns it with the advanced counter, which stops at the
/// largest `u64`.
pub fn allocate_unknown_id(next: u64) -> (r: (String, u64))
    ensures
        r.0@ == "rf-unknown-"@ + decimal_padded(next as nat, 4),
        r.1 == if next == u64::MAX {
            next
        } else {
            (next + 1) as u64
        },
{
    let id = provisional_emitter_id(next);
    let advanced = if next == u64::MAX {
        next
    } else {
        next + 1
    };
    (id, advanced)
}

/// Whether a hypothesis may be enrolled locally: a positive minimum
/// support, explicit operator confirmation, a hypothesis with that id
/// (`support` is its support count), and enough support. The checks run in
/// that order.
pub fn check_local_enrollment(min_support: usize, operator_confirmed: bool, support: Option<usize>) -> (r: Result<
    (),
    SdkError,
>)
    ensures
        r is Ok <==> min_support > 0 && operator_confirmed && (support matches Some(s) && s
            >= min_support),
        min_support == 0 ==> (r matches Err(SdkError::InvalidArgument(m)) && m@
            == "minimum support must be positive"@),
        min_support > 0 && !operator_confirmed ==> (r matches Err(SdkError::InvalidArgument(m))
            && m@ == "local enrollment requires explicit operator confirmation"@),
        min_support > 0 && operator_confirmed && support is None ==> (r matches Err(
            SdkError::InvalidArgument(m),
        ) && m@ == "emitter hypothesis not found"@),
        min_support > 0 && operator_confirmed && (support matches Some(s) && s < min_support) ==> (
        r matches Err(SdkError::InvalidArgument(m)) && m@
            == "insufficient evidence for local enrollment"@),
{
    if min_support == 0 {
        return Err(SdkError::InvalidArgument(String::from_str("minimum support must be positive")));
    }
    if !operator_confirmed {
        return Err(
            SdkError::InvalidArgument(
                String::from_str("local enrollment requires explicit operator confirmation"),
            ),
        );
    }
    let count = match support {
        Some(s) => s,
        None => {
            return Err(SdkError::InvalidArgument(String::from_str("emitter hypothesis not found")));
        },
    };
    if count < min_support {
        return Err(
            SdkError::InvalidArgument(String::from_str("insufficient evidence for local enrollment")),
        );
    }
    Ok(())
}

} // verus!
