use vstd::prelude::*;

verus! {

/// Identity of a stored record: the block it was stored at, paired with its
/// index within that block.
#[derive(Clone, Copy, PartialEq, Eq, Structural, Debug)]
pub struct RecordRef {
    pub block: u64,
    pub index: u32,
}

/// One stored payload's metadata.
pub struct TransactionRecord {
    /// Number of fixed-size chunks the payload was split into.
    pub chunk_count: u32,
    /// Original payload length in bytes.
    pub size: u32,
    /// Commitment root over all chunks.
    pub content_hash: Vec<u8>,
    /// Block at which the payload was stored.
    pub block: u64,
    /// Index of the record within its block.
    pub index: u32,
    /// Block at which the record ceases to be retrievable.
    pub expiry: u64,
}

/// Mathematical model of a stored record: the same fields, with the
/// commitment root as a byte sequence.
pub ghost struct RecordModel {
    pub chunk_count: u32,
    pub size: u32,
    pub content_hash: Seq<u8>,
    pub block: u64,
    pub index: u32,
    pub expiry: u64,
}

impl View for TransactionRecord {
    type V = RecordModel;

    open spec fn view(&self) -> RecordModel {
        RecordModel {
            chunk_count: self.chunk_count,
            size: self.size,
            content_hash: self.content_hash@,
            block: self.block,
            index: self.index,
            expiry: self.expiry,
        }
    }
}

impl DeepView for TransactionRecord {
    type V = RecordModel;

    open spec fn deep_view(&self) -> RecordModel {
        self.view()
    }
}

impl TransactionRecord {
    /// The record's identity.
    pub fn record_ref(&self) -> (r: RecordRef)
        ensures
            r.block == self.block,
            r.index == self.index,
    {
        RecordRef { block: self.block, index: self.index }
    }

    /// A copy of the record with the same field values.
    pub fn duplicate(&self) -> (r: TransactionRecord)
        ensures
            r@ == self@,
    {
        let r = TransactionRecord {
            chunk_count: self.chunk_count,
            size: self.size,
            content_hash: self.content_hash.clone(),
            block: self.block,
            index: self.index,
            expiry: self.expiry,
        };
        proof {
            assert(r.content_hash@ =~= self.content_hash@);
        }
        r
    }
}

/// A grant of storage capacity, valid until a fixed future block.
#[derive(Clone, Copy, PartialEq, Eq, Structural, Debug)]
pub struct AuthorizationEntry {
    /// Identifier handed back by `authorize` and consumed by `store`.
    pub id: u64,
    /// How many further store calls the grant covers.
    pub remaining_count: u32,
    /// How many further payload bytes the grant covers.
    pub remaining_bytes: u32,
    /// Block at the end of which the grant lapses.
    pub expiry_block: u64,
}

} // verus!
