use vstd::prelude::*;
use vstd::string::*;

verus! {

/// The value that follows a command-line flag; `value` is the next argument,
/// if there is one.
pub fn next_arg(value: Option<String>, flag: &str) -> (r: Result<String, String>)
    ensures
        match value {
            Some(v) => r matches Ok(s) && s@ == v@,
            None => r matches Err(m) && m@ == "missing value for "@ + flag@,
        },
{
    match value {
        Some(v) => Ok(v),
        None => {
            let message = String::from_str("missing value for ").concat(flag);
            proof {
                reveal_strlit("missing value for ");
            }
            Err(message)
        },
    }
}

} // verus!
