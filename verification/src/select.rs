use vstd::prelude::*;

use crate::records::{RecordModel, RecordRef, TransactionRecord};

verus! {

/// Value of a byte sequence read as a little-endian integer.
pub open spec fn le_value(s: Seq<u8>) -> nat
    decreases s.len(),
{
    if s.len() == 0 {
        0
    } else {
        (s[0] + 256 * le_value(s.drop_first())) as nat
    }
}

/// 256 to the power `n`.
pub open spec fn pow256(n: nat) -> nat
    decreases n,
{
    if n == 0 {
        1
    } else {
        256 * pow256((n - 1) as nat)
    }
}

/// A sequence of `n` bytes is worth less than 256 to the `n`.
pub proof fn lemma_le_value_bound(s: Seq<u8>)
    ensures
        le_value(s) < pow256(s.len()),
    decreases s.len(),
{
    if s.len() > 0 {
        lemma_le_value_bound(s.drop_first());
        assert(s[0] + 256 * le_value(s.drop_first()) < 256 * pow256(s.drop_first().len()))
            by (nonlinear_arith)
            requires
                s[0] < 256,
                le_value(s.drop_first()) < pow256(s.drop_first().len()),
        ;
    }
}

/// The little-endian byte representation of `v` in `n` bytes.
pub open spec fn le_bytes(v: nat, n: nat) -> Seq<u8>
    decreases n,
{
    if n == 0 {
        Seq::empty()
    } else {
        seq![(v % 256) as u8] + le_bytes(v / 256, (n - 1) as nat)
    }
}

/// Reading back the little-endian bytes of `v` yields `v` again.
pub proof fn lemma_le_bytes_value(v: nat, n: nat)
    requires
        v < pow256(n),
    ensures
        le_bytes(v, n).len() == n,
        le_value(le_bytes(v, n)) == v,
    decreases n,
{
    if n > 0 {
        assert(v / 256 < pow256((n - 1) as nat)) by (nonlinear_arith)
            requires
                v < 256 * pow256((n - 1) as nat),
        ;
        lemma_le_bytes_value(v / 256, (n - 1) as nat);
        let s = le_bytes(v, n);
        assert(s.drop_first() =~= le_bytes(v / 256, (n - 1) as nat));
        assert(s[0] == (v % 256) as u8);
        assert(le_value(s) == v % 256 + 256 * (v / 256));
    }
}

/// The seed a block's randomness yields: the first eight bytes read as a
/// little-endian integer.
pub open spec fn seed_of(randomness: Seq<u8>) -> nat
    recommends
        randomness.len() >= 8,
{
    le_value(randomness.take(8))
}

/// Position of the candidate that a seed selects among `n` candidates.
pub open spec fn selected_position(randomness: Seq<u8>, n: nat) -> nat
    recommends
        n > 0,
{
    seed_of(randomness) % n
}

/// The chunk index a seed selects within a record: the seed combined with the
/// record's identity, so that different records get independent indices for
/// the same block randomness.
pub open spec fn selected_chunk(randomness: Seq<u8>, rec: RecordModel) -> nat
    recommends
        rec.chunk_count > 0,
{
    ((seed_of(randomness) + rec.block + rec.index) % (rec.chunk_count as int)) as nat
}

/// The challenge target a block's randomness derives from the candidate
/// records: none when no candidate exists, else one candidate's identity and
/// one chunk index within it.
pub open spec fn spec_select(randomness: Seq<u8>, candidates: Seq<RecordModel>) -> Option<
    (RecordRef, u32),
> {
    if candidates.len() == 0 {
        None
    } else {
        let rec = candidates[selected_position(randomness, candidates.len()) as int];
        Some(
            (
                RecordRef { block: rec.block, index: rec.index },
                selected_chunk(randomness, rec) as u32,
            ),
        )
    }
}

/// Reads the first eight bytes of the randomness as a little-endian integer.
pub fn derive_seed(randomness: &Vec<u8>) -> (r: u64)
    requires
        randomness@.len() >= 8,
    ensures
        r as nat == seed_of(randomness@),
{
    let ghost t = randomness@.take(8);
    let mut acc: u64 = 0;
    let mut k: usize = 8;
    proof {
        assert(t.skip(8) =~= Seq::<u8>::empty());
        lemma_le_value_bound(t.skip(8));
    }
    while k > 0
        invariant
            k <= 8,
            t == randomness@.take(8),
            randomness@.len() >= 8,
            acc as nat == le_value(t.skip(k as int)),
            acc < pow256((8 - k) as nat),
        decreases k,
    {
        proof {
            assert(t.skip(k - 1)[0] == t[k - 1]);
            assert(t[k - 1] == randomness@[k - 1]);
            assert(t.skip(k - 1).drop_first() =~= t.skip(k as int));
            assert(le_value(t.skip(k - 1)) == t[k - 1] + 256 * le_value(t.skip(k as int)));
            assert(256 * (acc as nat) + 256 < 256 * pow256((8 - k) as nat) + 256)
                by (nonlinear_arith)
                requires
                    acc < pow256((8 - k) as nat),
            ;
            assert(256 * pow256((8 - k) as nat) == pow256((9 - k) as nat));
            assert(pow256((9 - k) as nat) <= pow256(8)) by {
                lemma_pow256_increases((9 - k) as nat, 8);
            }
            assert(pow256(8) == 0x1_0000_0000_0000_0000) by {
                reveal_with_fuel(pow256, 9);
            }
        }
        acc = acc * 256 + (randomness[k - 1] as u64);
        k = k - 1;
    }
    proof {
        assert(t.skip(0) =~= t);
    }
    acc
}

/// A larger exponent gives a larger power of 256.
pub proof fn lemma_pow256_increases(a: nat, b: nat)
    requires
        a <= b,
    ensures
        pow256(a) <= pow256(b),
    decreases b,
{
    if a < b {
        lemma_pow256_increases(a, (b - 1) as nat);
        assert(pow256(b) == 256 * pow256((b - 1) as nat));
        assert(pow256((b - 1) as nat) <= 256 * pow256((b - 1) as nat)) by (nonlinear_arith)
            requires
                pow256((b - 1) as nat) >= 0,
        ;
    }
}

/// Deterministically maps a block's randomness to one candidate record and
/// one chunk index within it; none when no candidate exists.
pub fn select_record(randomness: &Vec<u8>, candidates: &Vec<TransactionRecord>) -> (r: Option<
    (RecordRef, u32),
>)
    requires
        randomness@.len() >= 8,
        forall|i: int| 0 <= i < candidates@.len() ==> candidates.deep_view()[i].chunk_count >= 1,
    ensures
        r == spec_select(randomness@, candidates.deep_view()),
{
    if candidates.len() == 0 {
        return None;
    }
    let seed = derive_seed(randomness);
    let pos = (seed % (candidates.len() as u64)) as usize;
    proof {
        assert(candidates.deep_view().len() == candidates@.len());
        assert(pos as nat == selected_position(randomness@, candidates.deep_view().len()));
    }
    let rec = &candidates[pos];
    proof {
        assert(candidates.deep_view()[pos as int] == candidates@[pos as int]@);
    }
    let t: u128 = seed as u128 + rec.block as u128 + rec.index as u128;
    let ci = (t % (rec.chunk_count as u128)) as u32;
    proof {
        assert(ci as nat == selected_chunk(randomness@, candidates.deep_view()[pos as int]));
    }
    Some((RecordRef { block: rec.block, index: rec.index }, ci))
}

/// Determinism: identical randomness and an identical candidate list always
/// yield the identical challenge target.
pub proof fn lemma_select_deterministic(
    r1: Seq<u8>,
    c1: Seq<RecordModel>,
    r2: Seq<u8>,
    c2: Seq<RecordModel>,
)
    requires
        r1 == r2,
        c1 == c2,
    ensures
        spec_select(r1, c1) == spec_select(r2, c2),
{
}

/// No candidate is structurally unreachable: for every position in a
/// candidate list that an eight-byte seed can cover, some randomness value
/// selects exactly that position.
pub proof fn lemma_select_reaches_all(candidates: Seq<RecordModel>, j: int)
    requires
        0 <= j < candidates.len(),
        candidates.len() <= 0x1_0000_0000_0000_0000,
    ensures
        exists|r: Seq<u8>|
            r.len() == 32 && #[trigger] spec_select(r, candidates) == Some(
                (
                    RecordRef { block: candidates[j].block, index: candidates[j].index },
                    selected_chunk(r, candidates[j]) as u32,
                ),
            ),
{
    let w = le_bytes(j as nat, 8) + Seq::new(24, |i: int| 0u8);
    assert(pow256(8) == 0x1_0000_0000_0000_0000) by {
        reveal_with_fuel(pow256, 9);
    }
    lemma_le_bytes_value(j as nat, 8);
    assert(w.len() == 32);
    assert(w.take(8) =~= le_bytes(j as nat, 8));
    assert(seed_of(w) == j);
    assert(j as nat % candidates.len() == j) by (nonlinear_arith)
        requires
            0 <= j < candidates.len(),
    ;
    assert(selected_position(w, candidates.len()) == j);
    assert(spec_select(w, candidates) == Some(
        (
            RecordRef { block: candidates[j].block, index: candidates[j].index },
            selected_chunk(w, candidates[j]) as u32,
        ),
    ));
}

} // verus!
