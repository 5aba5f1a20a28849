//! Validation helpers for command-line flag values.

use vstd::prelude::*;

verus! {

/// Checks if `engine` names a supported storage engine.
pub fn is_valid_engine(engine: String) -> (r: Result<(), String>)
    ensures
        r is Ok <==> (engine@ == "kvs"@ || engine@ == "sled"@),
        r matches Err(m) ==> m@ == "Only 'kvs' or 'sled' are supported engine types"@,
{
    if engine == "kvs".to_owned() || engine == "sled".to_owned() {
        Ok(())
    } else {
        Err("Only 'kvs' or 'sled' are supported engine types".to_owned())
    }
}

} // verus!
