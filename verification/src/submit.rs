//! The shapes a batch-status endpoint answers with, and when a batch is
//! finished.

use vstd::prelude::*;

verus! {

/// One transaction a validator rejected, with its reason.
#[derive(Debug, PartialEq)]
pub struct InvalidTransaction {
    pub id: String,
    pub message: String,
}

/// The status one submitted batch has reached.
#[derive(Debug, PartialEq)]
pub struct BatchStatus {
    pub id: String,
    pub status: String,
    pub invalid_transactions: Vec<InvalidTransaction>,
}

/// The answer of a batch-status poll: the statuses asked for and a link to
/// poll again.
#[derive(Debug, PartialEq)]
pub struct StatusResponse {
    pub data: Vec<BatchStatus>,
    pub link: String,
}

impl InvalidTransaction {
    pub fn new(id: String, message: String) -> (r: InvalidTransaction)
        ensures
            r.id == id,
            r.message == message,
    {
        InvalidTransaction { id, message }
    }
}

impl BatchStatus {
    pub fn new(id: String, status: String, invalid_transactions: Vec<InvalidTransaction>) -> (r:
        BatchStatus)
        ensures
            r.id == id,
            r.status == status,
            r.invalid_transactions == invalid_transactions,
    {
        BatchStatus { id, status, invalid_transactions }
    }
}

impl StatusResponse {
    pub fn new(data: Vec<BatchStatus>, link: String) -> (r: StatusResponse)
        ensures
            r.data == data,
            r.link == link,
    {
        StatusResponse { data, link }
    }

    /// Whether polling can stop: every batch committed, or some batch is
    /// invalid.
    pub fn is_finished(&self) -> (r: bool)
        ensures
            r == ((forall|i: int|
                0 <= i < self.data@.len() ==> (#[trigger] self.data@[i]).status@ == "COMMITTED"@)
                || (exists|i: int|
                0 <= i < self.data@.len() && (#[trigger] self.data@[i]).status@ == "INVALID"@)),
    {
        let committed = "COMMITTED".to_owned();
        let invalid = "INVALID".to_owned();
        let mut all_committed = true;
        let mut any_invalid = false;
        let mut i: usize = 0;
        while i < self.data.len()
            invariant
                i <= self.data@.len(),
                committed@ == "COMMITTED"@,
                invalid@ == "INVALID"@,
                all_committed == (forall|j: int|
                    0 <= j < i ==> (#[trigger] self.data@[j]).status@ == "COMMITTED"@),
                any_invalid == (exists|j: int|
                    0 <= j < i && (#[trigger] self.data@[j]).status@ == "INVALID"@),
            decreases self.data@.len() - i,
        {
            if !(self.data[i].status == committed) {
                all_committed = false;
            }
            if self.data[i].status == invalid {
                proof {
                    assert((self.data@[i as int]).status@ == "INVALID"@);
                }
                any_invalid = true;
            }
            i += 1;
        }
        all_committed || any_invalid
    }
}

} // verus!
