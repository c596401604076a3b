use vstd::prelude::*;
use crate::tensor::clone_bytes;
use crate::time::UnixTimestamp;

verus! {

/// An immutable snapshot record: the content digest of its tensor
/// collection, an optional parent digest, a timestamp, a message and an
/// opaque metadata text. The `hash` field is the digest of the tensor
/// content alone, not of this record.
pub struct Commit {
    pub hash: Vec<u8>,
    pub parent_hash: Option<Vec<u8>>,
    pub timestamp: UnixTimestamp,
    pub message: String,
    pub metadata: Option<String>,
}

/// The mathematical value of a commit record.
pub struct CommitV {
    pub hash: Seq<u8>,
    pub parent_hash: Option<Seq<u8>>,
    pub timestamp: UnixTimestamp,
    pub message: Seq<char>,
    pub metadata: Option<Seq<char>>,
}

impl View for Commit {
    type V = CommitV;

    open spec fn view(&self) -> CommitV {
        CommitV {
            hash: self.hash@,
            parent_hash: match self.parent_hash {
                Some(p) => Some(p@),
                None => None,
            },
            timestamp: self.timestamp,
            message: self.message@,
            metadata: match self.metadata {
                Some(m) => Some(m@),
                None => None,
            },
        }
    }
}

/// Copies an optional byte vector.
pub fn clone_opt_bytes(v: &Option<Vec<u8>>) -> (r: Option<Vec<u8>>)
    ensures
        match v {
            Some(p) => r matches Some(q) && q@ == p@,
            None => r is None,
        },
{
    match v {
        Some(p) => Some(clone_bytes(p)),
        None => None,
    }
}

impl Clone for Commit {
    /// The copy has the same value as the original.
    fn clone(&self) -> (r: Self)
        ensures
            r@ == self@,
    {
        Commit {
            hash: clone_bytes(&self.hash),
            parent_hash: clone_opt_bytes(&self.parent_hash),
            timestamp: self.timestamp,
            message: self.message.clone(),
            metadata: match &self.metadata {
                Some(m) => Some(m.clone()),
                None => None,
            },
        }
    }
}

} // verus!
