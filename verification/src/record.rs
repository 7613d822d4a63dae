use vstd::prelude::*;

verus! {

/// A transaction retrieved from the ledger, reduced to the one thing the
/// graph builder reads: the ordered participant list ("account keys") of the
/// transaction message, when the record carries one.
///
/// A record without the list stands for malformed or partially fetched data;
/// it is tolerated and contributes no edges.
pub struct TransactionRecord {
    /// The participant addresses, in message order; `None` when the record
    /// lacks the list.
    pub account_keys: Option<Vec<String>>,
}

impl TransactionRecord {
    /// The participant list as a mathematical value: each address as its
    /// character sequence, or `None` for a record without the list.
    pub open spec fn keys(self) -> Option<Seq<Seq<char>>> {
        match self.account_keys {
            Some(v) => Some(Seq::new(v@.len(), |i: int| v@[i]@)),
            None => None,
        }
    }

    /// A record holding the given participant list.
    pub fn with_keys(keys: Vec<String>) -> (r: TransactionRecord)
        ensures
            r.keys() == Some(Seq::new(keys@.len(), |i: int| keys@[i]@)),
    {
        TransactionRecord { account_keys: Some(keys) }
    }

    /// A record in which the participant list is missing.
    pub fn without_keys() -> (r: TransactionRecord)
        ensures
            r.keys() is None,
    {
        TransactionRecord { account_keys: None }
    }
}

} // verus!
