use vstd::prelude::*;

use crate::errors::StorageError;
use crate::hashing::leaf_hash;
use crate::merkle::{climb, verify, ChunkProof};
use crate::records::{AuthorizationEntry, RecordModel, RecordRef};
use crate::select::{select_record, spec_select};
use crate::seq_util::{lemma_filter_all, lemma_filter_compose, lemma_filter_congruence};
use crate::state::{
    record_idx, rec_wf, auth_wf, spec_can_consume, spec_consume, spec_new_record,
    spec_store_error, Obligation, StateModel, StorageState,
};

verus! {

/// The obligation a block's randomness selects over the live records: none
/// when no record is live, else one record and one chunk index, not yet
/// satisfied.
pub open spec fn spec_challenge(randomness: Seq<u8>, records: Seq<RecordModel>) -> Option<
    Obligation,
> {
    match spec_select(randomness, records) {
        Some(t) => Some(Obligation { target: t.0, chunk_index: t.1, satisfied: false }),
        None => None,
    }
}

impl StorageState {
    /// Stores a payload against an authorization instead of a fee: the entry
    /// named `auth_id` must cover one store of the payload's length. Fails
    /// with the store's own error when the payload is rejected, and with
    /// `InsufficientAuthorization` when the entry cannot cover it; a failing
    /// call leaves the state untouched, consuming nothing.
    pub fn store_with_authorization(&mut self, payload: &Vec<u8>, auth_id: u64) -> (r: Result<
        RecordRef,
        StorageError,
    >)
        requires
            old(self)@.wf(),
            old(self)@.current_block + old(self)@.config.storage_period <= u64::MAX,
        ensures
            final(self)@.wf(),
            match r {
                Result::Err(e) => {
                    &&& final(self)@ == old(self)@
                    &&& match spec_store_error(old(self)@, payload@.len()) {
                        Some(se) => e == se,
                        None => {
                            &&& e == StorageError::InsufficientAuthorization
                            &&& !spec_can_consume(
                                old(self)@.authorizations,
                                auth_id,
                                1,
                                payload@.len() as u32,
                            )
                        },
                    }
                },
                Result::Ok(rf) => {
                    &&& spec_store_error(old(self)@, payload@.len()) is None
                    &&& spec_can_consume(
                        old(self)@.authorizations,
                        auth_id,
                        1,
                        payload@.len() as u32,
                    )
                    &&& rf == (RecordRef {
                        block: old(self)@.current_block,
                        index: old(self)@.block_count,
                    })
                    &&& final(self)@.records == old(self)@.records.push(
                        spec_new_record(old(self)@, payload@),
                    )
                    &&& final(self)@.authorizations == spec_consume(
                        old(self)@.authorizations,
                        auth_id,
                        1,
                        payload@.len() as u32,
                    )
                    &&& final(self)@.block_count == old(self)@.block_count + 1
                    &&& final(self)@ == (StateModel {
                        records: final(self)@.records,
                        authorizations: final(self)@.authorizations,
                        block_count: final(self)@.block_count,
                        ..old(self)@
                    })
                },
            },
    {
        if payload.len() == 0 {
            return Result::Err(StorageError::EmptyTransaction);
        }
        if payload.len() > self.config.max_transaction_size as usize {
            return Result::Err(StorageError::TransactionTooLarge);
        }
        if self.block_count >= self.config.max_block_transactions {
            return Result::Err(StorageError::TooManyTransactions);
        }
        let size = payload.len() as u32;
        match self.consume(auth_id, 1, size) {
            Result::Err(e) => {
                return Result::Err(e);
            },
            Result::Ok(u) => {},
        }
        match self.store(payload) {
            Result::Ok(rf) => Result::Ok(rf),
            Result::Err(e) => {
                proof {
                    assert(false);
                }
                Result::Err(e)
            },
        }
    }

    /// On block start: derives this block's challenge from the block's
    /// randomness over the currently live records and stores the obligation.
    pub fn initialize(&mut self, randomness: &Vec<u8>)
        requires
            old(self)@.wf(),
            randomness@.len() >= 8,
        ensures
            final(self)@.wf(),
            final(self)@.obligation == spec_challenge(randomness@, old(self)@.records),
            final(self)@ == (StateModel { obligation: final(self)@.obligation, ..old(self)@ }),
    {
        proof {
            assert forall|i: int| 0 <= i < self@.records.len() implies self.records.deep_view()[i].chunk_count
                >= 1 by {
                assert(self@.records.contains(self@.records[i]));
            }
        }
        let sel = select_record(randomness, &self.records);
        self.obligation = match sel {
            Option::Some(t) => Option::Some(
                Obligation { target: t.0, chunk_index: t.1, satisfied: false },
            ),
            Option::None => Option::None,
        };
        proof {
            assert forall|x: RecordModel| #[trigger] self@.records.contains(x) implies rec_wf(
                x,
                self@,
            ) by {
                assert(old(self)@.records.contains(x));
            }
            assert forall|x: AuthorizationEntry|
                #[trigger] self@.authorizations.contains(x) implies auth_wf(x, self@) by {
                assert(old(self)@.authorizations.contains(x));
            }
        }
    }

    /// Checks a submitted inclusion proof against the block's outstanding
    /// obligation. Fails with `UnexpectedProof` when no unsatisfied
    /// obligation is outstanding, `RecordNotFound` when the challenged record
    /// is no longer retained, and `InvalidProof` when the proof targets the
    /// wrong chunk or its recomputed root differs from the record's
    /// commitment; on success the obligation is marked satisfied. A failing
    /// call leaves the state untouched.
    pub fn check_proof(&mut self, chunk_proof: &ChunkProof) -> (r: Result<(), StorageError>)
        requires
            old(self)@.wf(),
        ensures
            final(self)@.wf(),
            match old(self)@.obligation {
                None => r == Result::<(), StorageError>::Err(StorageError::UnexpectedProof)
                    && final(self)@ == old(self)@,
                Some(ob) => {
                    if ob.satisfied {
                        &&& r == Result::<(), StorageError>::Err(StorageError::UnexpectedProof)
                        &&& final(self)@ == old(self)@
                    } else if record_idx(old(self)@.records, ob.target) == -1 {
                        &&& r == Result::<(), StorageError>::Err(StorageError::RecordNotFound)
                        &&& final(self)@ == old(self)@
                    } else if chunk_proof.chunk_index != ob.chunk_index {
                        &&& r == Result::<(), StorageError>::Err(StorageError::InvalidProof)
                        &&& final(self)@ == old(self)@
                    } else if climb(
                        leaf_hash(chunk_proof.chunk_data@),
                        ob.chunk_index as nat,
                        chunk_proof.proof_path.deep_view(),
                    ) == old(self)@.records[record_idx(old(self)@.records, ob.target)].content_hash {
                        &&& r == Result::<(), StorageError>::Ok(())
                        &&& final(self)@ == (StateModel {
                            obligation: Some(Obligation { satisfied: true, ..ob }),
                            ..old(self)@
                        })
                    } else {
                        &&& r == Result::<(), StorageError>::Err(StorageError::InvalidProof)
                        &&& final(self)@ == old(self)@
                    }
                },
            },
    {
        let ob = match self.obligation {
            Option::Some(ob) => ob,
            Option::None => {
                return Result::Err(StorageError::UnexpectedProof);
            },
        };
        if ob.satisfied {
            return Result::Err(StorageError::UnexpectedProof);
        }
        let rec = match self.get(ob.target) {
            Option::Some(rec) => rec,
            Option::None => {
                return Result::Err(StorageError::RecordNotFound);
            },
        };
        if chunk_proof.chunk_index != ob.chunk_index {
            return Result::Err(StorageError::InvalidProof);
        }
        let ok = verify(chunk_proof, &rec.content_hash);
        if !ok {
            return Result::Err(StorageError::InvalidProof);
        }
        self.obligation = Option::Some(
            Obligation { target: ob.target, chunk_index: ob.chunk_index, satisfied: true },
        );
        proof {
            assert forall|x: RecordModel| #[trigger] self@.records.contains(x) implies rec_wf(
                x,
                self@,
            ) by {
                assert(old(self)@.records.contains(x));
            }
            assert forall|x: AuthorizationEntry|
                #[trigger] self@.authorizations.contains(x) implies auth_wf(x, self@) by {
                assert(old(self)@.authorizations.contains(x));
            }
        }
        Result::Ok(())
    }

    /// On block end: prunes the records whose storage period elapses with
    /// this block, processes the authorizations expiring at it, clears the
    /// obligation and advances to the next block.
    pub fn finalize(&mut self)
        requires
            old(self)@.wf(),
            old(self)@.current_block < u64::MAX,
        ensures
            final(self)@.wf(),
            final(self)@.current_block == old(self)@.current_block + 1,
            final(self)@.block_count == 0,
            final(self)@.obligation is None,
            final(self)@.records == old(self)@.records.filter(
                |r: RecordModel| r.expiry != old(self)@.current_block + 1,
            ),
            final(self)@.authorizations == old(self)@.authorizations.filter(
                |a: AuthorizationEntry| a.expiry_block != old(self)@.current_block,
            ),
            final(self)@.config == old(self)@.config,
            final(self)@.next_auth_id == old(self)@.next_auth_id,
    {
        let next = self.current_block + 1;
        self.prune_expired(next);
        let cur = self.current_block;
        self.expire(cur);
        self.obligation = Option::None;
        self.block_count = 0;
        self.current_block = next;
        proof {
            let old_recs = old(self)@.records;
            let old_auths = old(self)@.authorizations;
            crate::seq_util::lemma_filter_members(old_recs, |r: RecordModel| r.expiry != next);
            crate::seq_util::lemma_filter_members(
                old_auths,
                |a: AuthorizationEntry| a.expiry_block != cur,
            );
            assert forall|x: RecordModel| #[trigger] self@.records.contains(x) implies rec_wf(
                x,
                self@,
            ) by {
                let f = old_recs.filter(|r: RecordModel| r.expiry != next);
                let k = choose|k: int| 0 <= k < f.len() && f[k] == x;
                assert(old_recs.contains(f[k]));
                assert(x.expiry != next);
            }
            assert forall|x: AuthorizationEntry|
                #[trigger] self@.authorizations.contains(x) implies auth_wf(x, self@) by {
                let f = old_auths.filter(|a: AuthorizationEntry| a.expiry_block != cur);
                let k = choose|k: int| 0 <= k < f.len() && f[k] == x;
                assert(old_auths.contains(f[k]));
                assert(x.expiry_block != cur);
            }
        }
    }
}

/// Lifecycle: a record among the retained ones is still retained after the
/// chain has run to block `b` exactly when its expiry lies beyond `b` — so a
/// record stored at block `B` for `S` blocks, with expiry `B + S`, is
/// retained at block `B + S - 1` and gone at block `B + S`.
pub proof fn lemma_record_lifecycle(records: Seq<RecordModel>, r: RecordModel, b: u64)
    requires
        records.contains(r),
    ensures
        records.filter(|x: RecordModel| x.expiry > b).contains(r) <==> r.expiry > b,
{
    let pred = |x: RecordModel| x.expiry > b;
    let f = records.filter(pred);
    if r.expiry > b {
        let i = choose|i: int| 0 <= i < records.len() && records[i] == r;
        records.lemma_filter_contains(pred, i);
    }
    if f.contains(r) {
        let k = choose|k: int| 0 <= k < f.len() && f[k] == r;
        records.lemma_filter_pred(pred, k);
    }
}

/// Runs whole blocks until the chain stands at block `n`: for each block in
/// turn, submits that block's proof when one is supplied, finalizes the
/// block, and initializes the next one with the given randomness. The record
/// that the `k`-th entry of `proofs` addresses is the obligation outstanding
/// at the `k`-th step.
pub fn run_to_block(
    state: &mut StorageState,
    n: u64,
    randomness: &Vec<u8>,
    proofs: &Vec<Option<ChunkProof>>,
)
    requires
        old(state)@.wf(),
        randomness@.len() >= 8,
    ensures
        final(state)@.wf(),
        old(state)@.current_block >= n ==> final(state)@ == old(state)@,
        old(state)@.current_block < n ==> {
            &&& final(state)@.current_block == n
            &&& final(state)@.records == old(state)@.records.filter(
                |r: RecordModel| r.expiry > n,
            )
            &&& final(state)@.authorizations == old(state)@.authorizations.filter(
                |a: AuthorizationEntry| a.expiry_block >= n,
            )
            &&& final(state)@.obligation == spec_challenge(randomness@, final(state)@.records)
            &&& final(state)@.block_count == 0
            &&& final(state)@.config == old(state)@.config
            &&& final(state)@.next_auth_id == old(state)@.next_auth_id
        },
{
    if state.current_block >= n {
        return ;
    }
    let ghost s0 = old(state)@;
    let mut k: usize = 0;
    proof {
        assert forall|i: int| 0 <= i < s0.records.len() implies (#[trigger] s0.records[i]).expiry
            > s0.current_block by {
            assert(s0.records.contains(s0.records[i]));
        }
        lemma_filter_all(s0.records, |r: RecordModel| r.expiry > s0.current_block);
        assert forall|i: int|
            0 <= i < s0.authorizations.len() implies (
        #[trigger] s0.authorizations[i]).expiry_block >= s0.current_block by {
            assert(s0.authorizations.contains(s0.authorizations[i]));
        }
        lemma_filter_all(
            s0.authorizations,
            |a: AuthorizationEntry| a.expiry_block >= s0.current_block,
        );
    }
    while state.current_block < n
        invariant
            state@.wf(),
            randomness@.len() >= 8,
            s0 == old(state)@,
            s0.current_block <= state@.current_block <= n,
            s0.current_block < n,
            state@.records == s0.records.filter(
                |r: RecordModel| r.expiry > state@.current_block,
            ),
            state@.authorizations == s0.authorizations.filter(
                |a: AuthorizationEntry| a.expiry_block >= state@.current_block,
            ),
            state@.config == s0.config,
            state@.next_auth_id == s0.next_auth_id,
            state@.current_block > s0.current_block ==> {
                &&& state@.obligation == spec_challenge(randomness@, state@.records)
                &&& state@.block_count == 0
            },
        decreases n - state@.current_block,
    {
        let ghost head = state@;
        if k < proofs.len() {
            match &proofs[k] {
                Option::Some(cp) => {
                    let outcome = state.check_proof(cp);
                    proof {
                        assert(state@.records == head.records);
                        assert(state@.authorizations == head.authorizations);
                        assert(state@.current_block == head.current_block);
                    }
                },
                Option::None => {},
            }
            k = k + 1;
        }
        let ghost cur = state@.current_block;
        state.finalize();
        proof {
            let p = |r: RecordModel| r.expiry > cur;
            let q = |r: RecordModel| r.expiry != cur + 1;
            lemma_filter_congruence(
                head.records,
                |r: RecordModel| r.expiry != cur + 1,
                q,
            );
            lemma_filter_compose(s0.records, p, q);
            lemma_filter_congruence(
                s0.records,
                |r: RecordModel| p(r) && q(r),
                |r: RecordModel| r.expiry > cur + 1,
            );
            let pa = |a: AuthorizationEntry| a.expiry_block >= cur;
            let qa = |a: AuthorizationEntry| a.expiry_block != cur;
            lemma_filter_compose(s0.authorizations, pa, qa);
            lemma_filter_congruence(
                s0.authorizations,
                |a: AuthorizationEntry| pa(a) && qa(a),
                |a: AuthorizationEntry| a.expiry_block >= cur + 1,
            );
        }
        state.initialize(randomness);
    }
}

} // verus!
