//! The choice of the backend.

use vstd::prelude::*;

verus! {

/// The name of the environment variable that chooses the backend.
pub const USE_LONGEST_PATH_GRAPH: &'static str = "BUCK2_USE_LONGEST_PATH_GRAPH";

/// Whether the value of the variable asks for the longest-path backend: it
/// does where it is `true` or `1`.  Without a value, and with any other, the
/// default backend is used.
pub fn longest_path_graph_enabled(value: Option<&String>) -> (enabled: bool)
    ensures
        enabled == match value {
            Some(text) => text@ == "true"@ || text@ == "1"@,
            None => false,
        },
{
    match value {
        Some(text) => {
            let yes = "true".to_owned();
            let one = "1".to_owned();
            *text == yes || *text == one
        },
        None => false,
    }
}

} // verus!
