//! The shape a state-listing endpoint answers with.

use vstd::prelude::*;

verus! {

/// One address of the ledger and the base64 payload stored there, as a
/// state-listing endpoint reports them.
#[derive(Debug, PartialEq)]
pub struct StateEntry {
    pub address: String,
    pub data: String,
}

impl Clone for StateEntry {
    /// A clone carries the same address and payload.
    fn clone(&self) -> (r: StateEntry)
        ensures
            r.address@ == self.address@,
            r.data@ == self.data@,
    {
        StateEntry { address: self.address.clone(), data: self.data.clone() }
    }
}

} // verus!
