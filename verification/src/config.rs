//! Validation of the operator's bot counts.

use vstd::prelude::*;
use vstd::string::StringExecFns;

verus! {

/// The largest roster one table takes; the reference clients must
/// leave room for at least one outside connection.
pub const MAX_BOTS_SUM: usize = 23;

/// Check that the requested reference clients fit at one table: their
/// sum must stay below the seat limit.  The error carries the message
/// shown to the operator.
pub fn validate_bot_args(n_call_bots: usize, n_random_bots: usize, n_fail_bots: usize) -> (r:
    Result<(), String>)
    requires
        n_call_bots < 0x1000_0000,
        n_random_bots < 0x1000_0000,
        n_fail_bots < 0x1000_0000,
    ensures
        r is Ok <==> n_call_bots + n_random_bots + n_fail_bots < MAX_BOTS_SUM,
        r matches Err(m) ==> m@ == "The sum of all bots must be less than 23"@,
{
    let sum = n_call_bots + n_random_bots + n_fail_bots;
    if sum >= MAX_BOTS_SUM {
        Err(String::from_str("The sum of all bots must be less than 23"))
    } else {
        Ok(())
    }
}

} // verus!
