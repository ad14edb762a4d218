use vstd::prelude::*;
use vstd::pervasive::VecAdditionalExecFns;

use crate::chunker::{chunk, spec_chunk_count, spec_chunks, CHUNK_SIZE};
use crate::chunker::lemma_chunks_count;
use crate::errors::StorageError;
use crate::merkle::{commit, merkle_root};
use crate::records::{AuthorizationEntry, RecordModel, RecordRef, TransactionRecord};
use crate::seq_util::{first_match_idx, lemma_first_match_at, lemma_first_match_none};

verus! {

/// The deployment-time configuration of the store.
#[derive(Clone, Copy, PartialEq, Eq, Structural, Debug)]
pub struct Config {
    /// Cap on the number of records stored within one block.
    pub max_block_transactions: u32,
    /// Cap on one payload's length in bytes.
    pub max_transaction_size: u32,
    /// Number of blocks a stored record remains retrievable.
    pub storage_period: u64,
    /// Cap on the number of authorizations expiring at one block.
    pub max_block_authorization_expiries: u32,
    /// How far into the future an authorization's expiry may be set.
    pub authorization_period: u64,
}

/// The single proof obligation selected for the current block.
#[derive(Clone, Copy, PartialEq, Eq, Structural, Debug)]
pub struct Obligation {
    /// The record whose possession must be proven.
    pub target: RecordRef,
    /// The chunk of that record that must be presented.
    pub chunk_index: u32,
    /// Whether a valid proof has already been accepted this block.
    pub satisfied: bool,
}

/// The whole mutable chain state this store works on: the record table, the
/// authorization ledger and the per-block obligation, passed explicitly into
/// each operation.
pub struct StorageState {
    pub config: Config,
    /// The block currently executing.
    pub current_block: u64,
    /// How many records have been stored within the current block.
    pub block_count: u32,
    /// Identifier for the next authorization granted.
    pub next_auth_id: u64,
    /// All records currently retained.
    pub records: Vec<TransactionRecord>,
    /// All authorizations currently granted and not yet expired or exhausted.
    pub authorizations: Vec<AuthorizationEntry>,
    /// The challenge selected for the current block, none when no record was
    /// live at block start.
    pub obligation: Option<Obligation>,
}

/// Mathematical model of the chain state.
pub ghost struct StateModel {
    pub config: Config,
    pub current_block: u64,
    pub block_count: u32,
    pub next_auth_id: u64,
    pub records: Seq<RecordModel>,
    pub authorizations: Seq<AuthorizationEntry>,
    pub obligation: Option<Obligation>,
}

impl View for StorageState {
    type V = StateModel;

    open spec fn view(&self) -> StateModel {
        StateModel {
            config: self.config,
            current_block: self.current_block,
            block_count: self.block_count,
            next_auth_id: self.next_auth_id,
            records: self.records.deep_view(),
            authorizations: self.authorizations@,
            obligation: self.obligation,
        }
    }
}

/// What always holds of one retained record.
pub open spec fn rec_wf(r: RecordModel, s: StateModel) -> bool {
    &&& r.size <= s.config.max_transaction_size
    &&& 1 <= r.chunk_count
    &&& r.block <= s.current_block
    &&& s.current_block < r.expiry
    &&& r.index < s.config.max_block_transactions
    &&& (r.block == s.current_block ==> r.index < s.block_count)
}

/// What always holds of one live authorization.
pub open spec fn auth_wf(a: AuthorizationEntry, s: StateModel) -> bool {
    &&& a.id < s.next_auth_id
    &&& s.current_block <= a.expiry_block
}

/// No two retained records share an identity.
pub open spec fn distinct_refs(records: Seq<RecordModel>) -> bool {
    forall|i: int, j: int|
        0 <= i < j < records.len() ==> !((#[trigger] records[i]).block == (
        #[trigger] records[j]).block && records[i].index == records[j].index)
}

impl StateModel {
    /// The state invariant: every operation both assumes and preserves it.
    pub open spec fn wf(self) -> bool {
        &&& 1 <= self.config.storage_period
        &&& self.block_count <= self.config.max_block_transactions
        &&& distinct_refs(self.records)
        &&& forall|r: RecordModel| #[trigger] self.records.contains(r) ==> rec_wf(r, self)
        &&& forall|a: AuthorizationEntry|
            #[trigger] self.authorizations.contains(a) ==> auth_wf(a, self)
    }
}

/// Filtering keeps record identities distinct.
pub proof fn lemma_filter_distinct_refs(s: Seq<RecordModel>, pred: spec_fn(RecordModel) -> bool)
    requires
        distinct_refs(s),
    ensures
        distinct_refs(s.filter(pred)),
    decreases s.len(),
{
    reveal(Seq::filter);
    if s.len() > 0 {
        let d = s.drop_last();
        lemma_filter_distinct_refs(d, pred);
        let f = s.filter(pred);
        let fd = d.filter(pred);
        if pred(s.last()) {
            crate::seq_util::lemma_filter_members(d, pred);
            assert forall|i: int, j: int| 0 <= i < j < f.len() implies !((#[trigger] f[i]).block
                == (#[trigger] f[j]).block && f[i].index == f[j].index) by {
                if j < fd.len() {
                    assert(f[i] == fd[i] && f[j] == fd[j]);
                } else {
                    assert(f[j] == s.last());
                    assert(f[i] == fd[i]);
                    assert(d.contains(fd[i]));
                    let k = choose|k: int| 0 <= k < d.len() && d[k] == fd[i];
                    assert(s[k] == fd[i]);
                    assert(s[s.len() - 1] == s.last());
                }
            }
        }
    }
}

/// The number of records retained for any single block never exceeds the
/// per-block insertion cap: their indices are pairwise distinct and all lie
/// below it.
pub proof fn lemma_per_block_records_bounded(s: StateModel, b: u64)
    requires
        s.wf(),
    ensures
        s.records.filter(|r: RecordModel| r.block == b).len()
            <= s.config.max_block_transactions,
{
    broadcast use vstd::seq_lib::seq_to_set_is_finite;
    broadcast use vstd::seq_lib::group_filter_ensures;

    let pred = |r: RecordModel| r.block == b;
    let f = s.records.filter(pred);
    let max = s.config.max_block_transactions as int;
    lemma_filter_distinct_refs(s.records, pred);
    crate::seq_util::lemma_filter_members(s.records, pred);
    let idxs = f.map_values(|r: RecordModel| r.index as int);
    assert forall|i: int, j: int| i != j && 0 <= i < idxs.len() && 0 <= j < idxs.len() implies
        idxs[i] != idxs[j] by {
        let (lo, hi) = if i < j {
            (i, j)
        } else {
            (j, i)
        };
        assert(f[lo].block == b && f[hi].block == b);
        assert(!(f[lo].block == f[hi].block && f[lo].index == f[hi].index));
    }
    assert(idxs.no_duplicates());
    idxs.unique_seq_to_set();
    assert forall|x: int| #[trigger] idxs.to_set().contains(x) implies 0 <= x < max by {
        let k = choose|k: int| 0 <= k < idxs.len() && idxs[k] == x;
        assert(s.records.contains(f[k]));
        assert(rec_wf(f[k], s));
    }
    vstd::set_lib::lemma_int_range(0, max);
    vstd::set_lib::lemma_len_subset(idxs.to_set(), vstd::set_lib::set_int_range(0, max));
}

/// Index of the record with the given identity, or -1 when none is retained.
pub open spec fn record_idx(records: Seq<RecordModel>, rf: RecordRef) -> int {
    first_match_idx(records, |r: RecordModel| r.block == rf.block && r.index == rf.index)
}

/// Index of the authorization with the given identifier, or -1.
pub open spec fn auth_idx(auths: Seq<AuthorizationEntry>, id: u64) -> int {
    first_match_idx(auths, |a: AuthorizationEntry| a.id == id)
}

/// Why a store call fails, or nothing when it is owed success.
pub open spec fn spec_store_error(s: StateModel, len: nat) -> Option<StorageError> {
    if len == 0 {
        Some(StorageError::EmptyTransaction)
    } else if len > s.config.max_transaction_size {
        Some(StorageError::TransactionTooLarge)
    } else if s.block_count >= s.config.max_block_transactions {
        Some(StorageError::TooManyTransactions)
    } else {
        None
    }
}

/// Whether the authorization ledger can cover a consumption of `count`
/// stores and `bytes` payload bytes from the entry named `id`.
pub open spec fn spec_can_consume(
    auths: Seq<AuthorizationEntry>,
    id: u64,
    count: u32,
    bytes: u32,
) -> bool {
    let i = auth_idx(auths, id);
    &&& i >= 0
    &&& auths[i].remaining_count >= count
    &&& auths[i].remaining_bytes >= bytes
}

/// The ledger after a covered consumption: the entry is decremented, and
/// removed once its remaining count is used up.
pub open spec fn spec_consume(
    auths: Seq<AuthorizationEntry>,
    id: u64,
    count: u32,
    bytes: u32,
) -> Seq<AuthorizationEntry>
    recommends
        spec_can_consume(auths, id, count, bytes),
{
    let i = auth_idx(auths, id);
    let a = auths[i];
    if a.remaining_count == count {
        auths.remove(i)
    } else {
        auths.update(
            i,
            AuthorizationEntry {
                id: a.id,
                remaining_count: (a.remaining_count - count) as u32,
                remaining_bytes: (a.remaining_bytes - bytes) as u32,
                expiry_block: a.expiry_block,
            },
        )
    }
}

/// How many ledger entries expire at block `e`.
pub open spec fn expiring_at(auths: Seq<AuthorizationEntry>, e: u64) -> nat {
    auths.filter(|a: AuthorizationEntry| a.expiry_block == e).len()
}

/// Why an authorize call fails, or nothing when it is owed success.
pub open spec fn spec_authorize_error(
    s: StateModel,
    is_privileged: bool,
    expiry_block: u64,
) -> Option<StorageError> {
    if !is_privileged {
        Some(StorageError::Unauthorized)
    } else if expiry_block < s.current_block || expiry_block - s.current_block
        > s.config.authorization_period {
        Some(StorageError::InvalidAuthorizationExpiry)
    } else if expiring_at(s.authorizations, expiry_block)
        >= s.config.max_block_authorization_expiries {
        Some(StorageError::BlockAuthorizationCapacityReached)
    } else {
        None
    }
}

/// The record a successful store call appends: committed over the payload's
/// chunks, stored at the current block under the next free index, expiring a
/// storage period later.
pub open spec fn spec_new_record(s: StateModel, payload: Seq<u8>) -> RecordModel {
    RecordModel {
        chunk_count: spec_chunk_count(payload.len(), CHUNK_SIZE as nat) as u32,
        size: payload.len() as u32,
        content_hash: merkle_root(spec_chunks(payload, CHUNK_SIZE as nat)),
        block: s.current_block,
        index: s.block_count,
        expiry: (s.current_block + s.config.storage_period) as u64,
    }
}

impl StorageState {
    /// A fresh state at block `initial_block` with nothing retained.
    pub fn new(config: Config, initial_block: u64) -> (s: StorageState)
        requires
            1 <= config.storage_period,
        ensures
            s@.wf(),
            s@.config == config,
            s@.current_block == initial_block,
            s@.block_count == 0,
            s@.next_auth_id == 0,
            s@.records == Seq::<RecordModel>::empty(),
            s@.authorizations == Seq::<AuthorizationEntry>::empty(),
            s@.obligation is None,
    {
        let s = StorageState {
            config,
            current_block: initial_block,
            block_count: 0,
            next_auth_id: 0,
            records: Vec::new(),
            authorizations: Vec::new(),
            obligation: None,
        };
        proof {
            assert(s.records.deep_view() =~= Seq::<RecordModel>::empty());
        }
        s
    }

    /// Validates the payload against the size and per-block bounds, commits
    /// to its chunks and retains the new record. Fails exactly when the
    /// payload is empty, oversized, or the block's insertion cap is reached;
    /// a failing call leaves the state untouched.
    pub fn store(&mut self, payload: &Vec<u8>) -> (r: Result<RecordRef, StorageError>)
        requires
            old(self)@.wf(),
            old(self)@.current_block + old(self)@.config.storage_period <= u64::MAX,
        ensures
            final(self)@.wf(),
            match r {
                Result::Err(e) => {
                    &&& Some(e) == spec_store_error(old(self)@, payload@.len())
                    &&& final(self)@ == old(self)@
                },
                Result::Ok(rf) => {
                    &&& spec_store_error(old(self)@, payload@.len()) is None
                    &&& rf == (RecordRef {
                        block: old(self)@.current_block,
                        index: old(self)@.block_count,
                    })
                    &&& final(self)@.records == old(self)@.records.push(
                        spec_new_record(old(self)@, payload@),
                    )
                    &&& final(self)@.block_count == old(self)@.block_count + 1
                    &&& final(self)@ == (StateModel {
                        records: final(self)@.records,
                        block_count: final(self)@.block_count,
                        ..old(self)@
                    })
                },
            },
    {
        if payload.len() == 0 {
            return Result::Err(StorageError::EmptyTransaction);
        }
        if payload.len() > self.config.max_transaction_size as usize {
            return Result::Err(StorageError::TransactionTooLarge);
        }
        if self.block_count >= self.config.max_block_transactions {
            return Result::Err(StorageError::TooManyTransactions);
        }
        let chunks = chunk(payload, CHUNK_SIZE);
        proof {
            lemma_chunks_count(payload@, CHUNK_SIZE as nat);
            assert(1 <= (payload@.len() + 255) / 256 <= payload@.len()) by (nonlinear_arith)
                requires
                    1 <= payload@.len(),
            ;
        }
        let root = commit(&chunks);
        let record = TransactionRecord {
            chunk_count: chunks.len() as u32,
            size: payload.len() as u32,
            content_hash: root,
            block: self.current_block,
            index: self.block_count,
            expiry: self.current_block + self.config.storage_period,
        };
        let rf = RecordRef { block: self.current_block, index: self.block_count };
        let ghost old_model = self@;
        let ghost new_rec = record@;
        self.records.push(record);
        self.block_count = self.block_count + 1;
        proof {
            assert(new_rec == spec_new_record(old_model, payload@));
            assert(self@.records =~= old_model.records.push(new_rec));
            assert forall|i: int, j: int| 0 <= i < j < self@.records.len() implies !((
            #[trigger] self@.records[i]).block == (#[trigger] self@.records[j]).block
                && self@.records[i].index == self@.records[j].index) by {
                assert(self@.records[i] == old_model.records[i]);
                if j < old_model.records.len() {
                    assert(self@.records[j] == old_model.records[j]);
                } else {
                    assert(self@.records[j] == new_rec);
                    assert(old_model.records.contains(old_model.records[i]));
                }
            }
            assert forall|r: RecordModel| #[trigger] self@.records.contains(r) implies rec_wf(
                r,
                self@,
            ) by {
                let i = choose|i: int| 0 <= i < self@.records.len() && self@.records[i] == r;
                if i < old_model.records.len() {
                    assert(old_model.records.contains(r));
                } else {
                    assert(r == new_rec);
                }
            }
            assert forall|a: AuthorizationEntry|
                #[trigger] self@.authorizations.contains(a) implies auth_wf(a, self@) by {
                assert(old_model.authorizations.contains(a));
            }
        }
        Result::Ok(rf)
    }

    /// Looks up a retained record by its identity.
    pub fn get(&self, rf: RecordRef) -> (r: Option<TransactionRecord>)
        ensures
            match r {
                Option::None => record_idx(self@.records, rf) == -1,
                Option::Some(rec) => {
                    &&& record_idx(self@.records, rf) >= 0
                    &&& rec@ == self@.records[record_idx(self@.records, rf)]
                },
            },
    {
        let ghost pred = |r: RecordModel| r.block == rf.block && r.index == rf.index;
        let mut i: usize = 0;
        while i < self.records.len()
            invariant
                i <= self@.records.len(),
                self@.records.len() == self.records@.len(),
                forall|k: int| 0 <= k < i ==> !pred(#[trigger] self@.records[k]),
                pred == (|r: RecordModel| r.block == rf.block && r.index == rf.index),
            decreases self@.records.len() - i,
        {
            let rec = &self.records[i];
            proof {
                assert(self@.records[i as int] == self.records@[i as int]@);
            }
            if rec.block == rf.block && rec.index == rf.index {
                proof {
                    lemma_first_match_at(self@.records, pred, i as int);
                }
                return Option::Some(rec.duplicate());
            }
            i = i + 1;
        }
        proof {
            lemma_first_match_none(self@.records, pred);
        }
        Option::None
    }

    /// Consumes `count` stores and `bytes` payload bytes from the ledger
    /// entry named `auth_id`. Fails exactly when no such entry exists or
    /// either remaining field cannot cover the request; a failing call leaves
    /// the state untouched. A covered call decrements the entry and removes
    /// it once its remaining count is used up.
    pub fn consume(&mut self, auth_id: u64, count: u32, bytes: u32) -> (r: Result<
        (),
        StorageError,
    >)
        requires
            old(self)@.wf(),
        ensures
            final(self)@.wf(),
            match r {
                Result::Err(e) => {
                    &&& e == StorageError::InsufficientAuthorization
                    &&& final(self)@ == old(self)@
                    &&& !spec_can_consume(old(self)@.authorizations, auth_id, count, bytes)
                },
                Result::Ok(u) => {
                    &&& spec_can_consume(old(self)@.authorizations, auth_id, count, bytes)
                    &&& final(self)@.authorizations == spec_consume(
                        old(self)@.authorizations,
                        auth_id,
                        count,
                        bytes,
                    )
                    &&& final(self)@ == (StateModel {
                        authorizations: final(self)@.authorizations,
                        ..old(self)@
                    })
                },
            },
    {
        let ghost pred = |a: AuthorizationEntry| a.id == auth_id;
        let ghost old_auths = self@.authorizations;
        let mut i: usize = 0;
        while i < self.authorizations.len()
            invariant
                i <= old_auths.len(),
                old(self)@.wf(),
                self@ == old(self)@,
                old_auths == self.authorizations@,
                forall|k: int| 0 <= k < i ==> !pred(#[trigger] old_auths[k]),
                pred == (|a: AuthorizationEntry| a.id == auth_id),
            decreases old_auths.len() - i,
        {
            if self.authorizations[i].id == auth_id {
                proof {
                    lemma_first_match_at(old_auths, pred, i as int);
                }
                let a = self.authorizations[i];
                if a.remaining_count < count || a.remaining_bytes < bytes {
                    return Result::Err(StorageError::InsufficientAuthorization);
                }
                if a.remaining_count == count {
                    self.authorizations.remove(i);
                    proof {
                        old_auths.remove_ensures(i as int);
                        assert(self@.authorizations =~= old_auths.remove(i as int));
                    }
                } else {
                    let updated = AuthorizationEntry {
                        id: a.id,
                        remaining_count: a.remaining_count - count,
                        remaining_bytes: a.remaining_bytes - bytes,
                        expiry_block: a.expiry_block,
                    };
                    self.authorizations.set(i, updated);
                    proof {
                        assert(self@.authorizations =~= old_auths.update(i as int, updated));
                    }
                }
                proof {
                    assert(old_auths == old(self)@.authorizations);
                    assert forall|x: AuthorizationEntry|
                        #[trigger] self@.authorizations.contains(x) implies auth_wf(x, self@) by {
                        assert(exists|k: int|
                            0 <= k < self@.authorizations.len() && self@.authorizations[k] == x);
                        let k = choose|k: int|
                            0 <= k < self@.authorizations.len() && self@.authorizations[k] == x;
                        assert(self@.authorizations[k] == x);
                        if a.remaining_count == count {
                            if k < i {
                                assert(old_auths.contains(old_auths[k]));
                            } else {
                                assert(self@.authorizations[k] == old_auths[k + 1]);
                                assert(old_auths.contains(old_auths[k + 1]));
                            }
                        } else {
                            if k == i {
                                assert(old_auths.contains(old_auths[k]));
                                assert(x.id == old_auths[k].id);
                                assert(x.expiry_block == old_auths[k].expiry_block);
                            } else {
                                assert(self@.authorizations[k] == old_auths[k]);
                                assert(old_auths.contains(old_auths[k]));
                            }
                        }
                    }
                    assert forall|x: RecordModel| #[trigger] self@.records.contains(x) implies
                        rec_wf(x, self@) by {
                        assert(old(self)@.records.contains(x));
                    }
                }
                return Result::Ok(());
            }
            i = i + 1;
        }
        proof {
            lemma_first_match_none(old_auths, pred);
        }
        Result::Err(StorageError::InsufficientAuthorization)
    }

    /// Grants a new authorization for `count` stores and `bytes` payload
    /// bytes, lapsing at the end of block `expiry_block`. Only a privileged
    /// caller may grant; the expiry must lie within the authorization period
    /// of the current block, and no more than the configured number of
    /// entries may already expire at that block. A failing call leaves the
    /// state untouched.
    pub fn authorize(
        &mut self,
        is_privileged: bool,
        count: u32,
        bytes: u32,
        expiry_block: u64,
    ) -> (r: Result<AuthorizationEntry, StorageError>)
        requires
            old(self)@.wf(),
            old(self)@.next_auth_id < u64::MAX,
        ensures
            final(self)@.wf(),
            match r {
                Result::Err(e) => {
                    &&& Some(e) == spec_authorize_error(old(self)@, is_privileged, expiry_block)
                    &&& final(self)@ == old(self)@
                },
                Result::Ok(entry) => {
                    &&& spec_authorize_error(old(self)@, is_privileged, expiry_block) is None
                    &&& entry == (AuthorizationEntry {
                        id: old(self)@.next_auth_id,
                        remaining_count: count,
                        remaining_bytes: bytes,
                        expiry_block,
                    })
                    &&& final(self)@.authorizations == old(self)@.authorizations.push(entry)
                    &&& final(self)@.next_auth_id == old(self)@.next_auth_id + 1
                    &&& final(self)@ == (StateModel {
                        authorizations: final(self)@.authorizations,
                        next_auth_id: final(self)@.next_auth_id,
                        ..old(self)@
                    })
                },
            },
    {
        if !is_privileged {
            return Result::Err(StorageError::Unauthorized);
        }
        if expiry_block < self.current_block || expiry_block - self.current_block
            > self.config.authorization_period {
            return Result::Err(StorageError::InvalidAuthorizationExpiry);
        }
        let ghost pred = |a: AuthorizationEntry| a.expiry_block == expiry_block;
        let ghost auths = self@.authorizations;
        let mut expiring: usize = 0;
        let mut i: usize = 0;
        proof {
            assert(auths.take(0) =~= Seq::<AuthorizationEntry>::empty());
            reveal(Seq::filter);
        }
        while i < self.authorizations.len()
            invariant
                i <= auths.len(),
                self@ == old(self)@,
                auths == self.authorizations@,
                expiring == auths.take(i as int).filter(pred).len(),
                expiring <= i,
                pred == (|a: AuthorizationEntry| a.expiry_block == expiry_block),
            decreases auths.len() - i,
        {
            proof {
                reveal(Seq::filter);
                assert(auths.take(i + 1).drop_last() =~= auths.take(i as int));
                assert(auths.take(i + 1).last() == auths[i as int]);
            }
            if self.authorizations[i].expiry_block == expiry_block {
                expiring = expiring + 1;
            }
            i = i + 1;
        }
        proof {
            assert(auths.take(auths.len() as int) =~= auths);
        }
        if expiring >= self.config.max_block_authorization_expiries as usize {
            return Result::Err(StorageError::BlockAuthorizationCapacityReached);
        }
        let entry = AuthorizationEntry {
            id: self.next_auth_id,
            remaining_count: count,
            remaining_bytes: bytes,
            expiry_block,
        };
        self.authorizations.push(entry);
        self.next_auth_id = self.next_auth_id + 1;
        proof {
            assert forall|x: AuthorizationEntry|
                #[trigger] self@.authorizations.contains(x) implies auth_wf(x, self@) by {
                let k = choose|k: int|
                    0 <= k < self@.authorizations.len() && self@.authorizations[k] == x;
                if k < auths.len() {
                    assert(auths.contains(auths[k]));
                } else {
                    assert(x == entry);
                }
            }
            assert forall|x: RecordModel| #[trigger] self@.records.contains(x) implies rec_wf(
                x,
                self@,
            ) by {
                assert(old(self)@.records.contains(x));
            }
        }
        Result::Ok(entry)
    }

    /// Re-anchors an already retained record: its commitment and chunk count
    /// are reused and its expiry is extended to a new storage period from the
    /// current block. Fails exactly when no record with the given identity is
    /// retained, leaving the state untouched.
    pub fn renew(&mut self, rf: RecordRef, new_period: u64) -> (r: Result<(), StorageError>)
        requires
            old(self)@.wf(),
            1 <= new_period,
            old(self)@.current_block + new_period <= u64::MAX,
        ensures
            final(self)@.wf(),
            match r {
                Result::Err(e) => {
                    &&& e == StorageError::RecordNotFound
                    &&& record_idx(old(self)@.records, rf) == -1
                    &&& final(self)@ == old(self)@
                },
                Result::Ok(u) => {
                    &&& record_idx(old(self)@.records, rf) >= 0
                    &&& final(self)@.records == old(self)@.records.update(
                        record_idx(old(self)@.records, rf),
                        RecordModel {
                            expiry: (old(self)@.current_block + new_period) as u64,
                            ..old(self)@.records[record_idx(old(self)@.records, rf)]
                        },
                    )
                    &&& final(self)@ == (StateModel { records: final(self)@.records, ..old(self)@ })
                },
            },
    {
        let ghost pred = |r: RecordModel| r.block == rf.block && r.index == rf.index;
        let ghost old_recs = self@.records;
        let mut i: usize = 0;
        while i < self.records.len()
            invariant
                i <= old_recs.len(),
                old(self)@.wf(),
                1 <= new_period,
                old(self)@.current_block + new_period <= u64::MAX,
                self@ == old(self)@,
                old_recs == self.records.deep_view(),
                old_recs.len() == self.records@.len(),
                forall|k: int| 0 <= k < i ==> !pred(#[trigger] old_recs[k]),
                pred == (|r: RecordModel| r.block == rf.block && r.index == rf.index),
            decreases old_recs.len() - i,
        {
            proof {
                assert(old_recs[i as int] == self.records@[i as int]@);
            }
            if self.records[i].block == rf.block && self.records[i].index == rf.index {
                proof {
                    lemma_first_match_at(old_recs, pred, i as int);
                }
                let rec = &self.records[i];
                let renewed = TransactionRecord {
                    chunk_count: rec.chunk_count,
                    size: rec.size,
                    content_hash: rec.content_hash.clone(),
                    block: rec.block,
                    index: rec.index,
                    expiry: self.current_block + new_period,
                };
                proof {
                    assert(renewed.content_hash@ =~= rec.content_hash@);
                }
                let ghost renewed_model = renewed@;
                self.records.set(i, renewed);
                proof {
                    assert(self@.records =~~= old_recs.update(i as int, renewed_model));
                    assert forall|a: int, c: int| 0 <= a < c < self@.records.len() implies !((
                    #[trigger] self@.records[a]).block == (#[trigger] self@.records[c]).block
                        && self@.records[a].index == self@.records[c].index) by {
                        assert(self@.records[a].block == old_recs[a].block
                            && self@.records[a].index == old_recs[a].index);
                        assert(self@.records[c].block == old_recs[c].block
                            && self@.records[c].index == old_recs[c].index);
                    }
                    assert forall|x: RecordModel| #[trigger] self@.records.contains(x) implies
                        rec_wf(x, self@) by {
                        let k = choose|k: int|
                            0 <= k < self@.records.len() && self@.records[k] == x;
                        if k == i {
                            assert(old_recs.contains(old_recs[k]));
                        } else {
                            assert(self@.records[k] == old_recs[k]);
                            assert(old_recs.contains(old_recs[k]));
                        }
                    }
                    assert forall|x: AuthorizationEntry|
                        #[trigger] self@.authorizations.contains(x) implies auth_wf(x, self@) by {
                        assert(old(self)@.authorizations.contains(x));
                    }
                }
                return Result::Ok(());
            }
            i = i + 1;
        }
        proof {
            lemma_first_match_none(old_recs, pred);
        }
        Result::Err(StorageError::RecordNotFound)
    }

    /// Removes every record whose expiry equals `n`.
    pub fn prune_expired(&mut self, n: u64)
        requires
            old(self)@.wf(),
        ensures
            final(self)@.wf(),
            final(self)@.records == old(self)@.records.filter(
                |r: RecordModel| r.expiry != n,
            ),
            final(self)@ == (StateModel { records: final(self)@.records, ..old(self)@ }),
    {
        let ghost pred = |r: RecordModel| r.expiry != n;
        let ghost old_recs = self@.records;
        let mut kept: Vec<TransactionRecord> = Vec::new();
        let mut i: usize = 0;
        proof {
            reveal(Seq::filter);
            assert(old_recs.take(0) =~= Seq::<RecordModel>::empty());
            assert(kept.deep_view() =~= old_recs.take(0).filter(pred));
        }
        while i < self.records.len()
            invariant
                i <= old_recs.len(),
                self@ == old(self)@,
                old_recs == self.records.deep_view(),
                old_recs.len() == self.records@.len(),
                kept.deep_view() == old_recs.take(i as int).filter(pred),
                pred == (|r: RecordModel| r.expiry != n),
            decreases old_recs.len() - i,
        {
            proof {
                reveal(Seq::filter);
                assert(old_recs[i as int] == self.records@[i as int]@);
                assert(old_recs.take(i + 1).drop_last() =~= old_recs.take(i as int));
                assert(old_recs.take(i + 1).last() == old_recs[i as int]);
            }
            if self.records[i].expiry != n {
                let ghost old_kept = kept.deep_view();
                kept.push(self.records[i].duplicate());
                proof {
                    assert(kept.deep_view() =~~= old_kept.push(old_recs[i as int]));
                }
            }
            i = i + 1;
        }
        proof {
            assert(old_recs.take(old_recs.len() as int) =~= old_recs);
        }
        self.records = kept;
        proof {
            crate::seq_util::lemma_filter_members(old_recs, pred);
            lemma_filter_distinct_refs(old_recs, pred);
            assert forall|x: RecordModel| #[trigger] self@.records.contains(x) implies rec_wf(
                x,
                self@,
            ) by {
                let k = choose|k: int| 0 <= k < self@.records.len() && self@.records[k] == x;
                assert(old_recs.contains(old_recs.filter(pred)[k]));
            }
            assert forall|x: AuthorizationEntry|
                #[trigger] self@.authorizations.contains(x) implies auth_wf(x, self@) by {
                assert(old(self)@.authorizations.contains(x));
            }
        }
    }

    /// Removes every authorization whose expiry block equals `n`.
    pub fn expire(&mut self, n: u64)
        requires
            old(self)@.wf(),
        ensures
            final(self)@.wf(),
            final(self)@.authorizations == old(self)@.authorizations.filter(
                |a: AuthorizationEntry| a.expiry_block != n,
            ),
            final(self)@ == (StateModel {
                authorizations: final(self)@.authorizations,
                ..old(self)@
            }),
    {
        let ghost pred = |a: AuthorizationEntry| a.expiry_block != n;
        let ghost old_auths = self@.authorizations;
        let mut kept: Vec<AuthorizationEntry> = Vec::new();
        let mut i: usize = 0;
        proof {
            reveal(Seq::filter);
            assert(old_auths.take(0) =~= Seq::<AuthorizationEntry>::empty());
            assert(kept@ =~= old_auths.take(0).filter(pred));
        }
        while i < self.authorizations.len()
            invariant
                i <= old_auths.len(),
                self@ == old(self)@,
                old_auths == self.authorizations@,
                kept@ == old_auths.take(i as int).filter(pred),
                pred == (|a: AuthorizationEntry| a.expiry_block != n),
            decreases old_auths.len() - i,
        {
            proof {
                reveal(Seq::filter);
                assert(old_auths.take(i + 1).drop_last() =~= old_auths.take(i as int));
                assert(old_auths.take(i + 1).last() == old_auths[i as int]);
            }
            if self.authorizations[i].expiry_block != n {
                kept.push(self.authorizations[i]);
            }
            i = i + 1;
        }
        proof {
            assert(old_auths.take(old_auths.len() as int) =~= old_auths);
        }
        self.authorizations = kept;
        proof {
            crate::seq_util::lemma_filter_members(old_auths, pred);
            assert forall|x: AuthorizationEntry|
                #[trigger] self@.authorizations.contains(x) implies auth_wf(x, self@) by {
                let k = choose|k: int|
                    0 <= k < self@.authorizations.len() && self@.authorizations[k] == x;
                assert(old_auths.contains(old_auths.filter(pred)[k]));
            }
            assert forall|x: RecordModel| #[trigger] self@.records.contains(x) implies rec_wf(
                x,
                self@,
            ) by {
                assert(old(self)@.records.contains(x));
            }
        }
    }
}

} // verus!
