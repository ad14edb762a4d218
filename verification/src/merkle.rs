use vstd::prelude::*;

use crate::hashing::{blake2_256, blake2_of, combine, leaf_hash, node_hash};

verus! {

/// An inclusion proof for exactly one chunk of one stored payload.
pub struct ChunkProof {
    /// Which chunk is being proven.
    pub chunk_index: u32,
    /// The raw bytes of that chunk.
    pub chunk_data: Vec<u8>,
    /// Sibling hashes from the leaf's level up to just below the root.
    pub proof_path: Vec<Vec<u8>>,
}

/// One level up in the commitment tree: adjacent hashes are combined
/// pairwise; an unpaired last hash is combined with itself.
pub open spec fn next_level(level: Seq<Seq<u8>>) -> Seq<Seq<u8>> {
    Seq::new(
        ((level.len() + 1) / 2) as nat,
        |i: int|
            if 2 * i + 1 < level.len() {
                node_hash(level[2 * i], level[2 * i + 1])
            } else {
                node_hash(level[2 * i], level[2 * i])
            },
    )
}

/// The root obtained by repeatedly combining a level of hashes pairwise.
/// A single hash is its own root; an empty level has an empty root.
pub open spec fn root_of_level(level: Seq<Seq<u8>>) -> Seq<u8>
    decreases level.len(),
{
    if level.len() == 0 {
        Seq::empty()
    } else if level.len() == 1 {
        level[0]
    } else {
        root_of_level(next_level(level))
    }
}

/// The commitment over a payload's chunks: the root of the binary hash tree
/// whose leaves are the chunks' digests, in chunk order.
pub open spec fn merkle_root(chunks: Seq<Seq<u8>>) -> Seq<u8> {
    root_of_level(chunks.map_values(|c: Seq<u8>| leaf_hash(c)))
}

/// The hash that stands beside position `i` of a level: its pair partner,
/// or the hash at `i` itself when it is an unpaired last element.
pub open spec fn sibling_of(level: Seq<Seq<u8>>, i: nat) -> Seq<u8> {
    if i % 2 == 0 {
        if i + 1 < level.len() {
            level[i as int + 1]
        } else {
            level[i as int]
        }
    } else {
        level[i as int - 1]
    }
}

/// The sibling hashes collected from position `i` of `level` up to the root:
/// the proof path for leaf `i`.
pub open spec fn spec_proof_path(level: Seq<Seq<u8>>, i: nat) -> Seq<Seq<u8>>
    decreases level.len(),
{
    if level.len() <= 1 {
        Seq::empty()
    } else {
        seq![sibling_of(level, i)] + spec_proof_path(next_level(level), i / 2)
    }
}

/// Recomputes a root from a starting hash at position `index` and a path of
/// sibling hashes, leaf to root: at each step the bit pattern of the index
/// decides whether the running hash stands left or right.
pub open spec fn climb(h: Seq<u8>, index: nat, path: Seq<Seq<u8>>) -> Seq<u8>
    decreases path.len(),
{
    if path.len() == 0 {
        h
    } else {
        let step = if index % 2 == 0 {
            node_hash(h, path[0])
        } else {
            node_hash(path[0], h)
        };
        climb(step, index / 2, path.skip(1))
    }
}

/// Climbing the proof path of position `i` from the hash at `i` reaches the
/// root of the level.
pub proof fn lemma_climb_proof_path(level: Seq<Seq<u8>>, i: nat)
    requires
        i < level.len(),
    ensures
        climb(level[i as int], i, spec_proof_path(level, i)) == root_of_level(level),
    decreases level.len(),
{
    if level.len() <= 1 {
    } else {
        let next = next_level(level);
        let sib = sibling_of(level, i);
        let path = spec_proof_path(level, i);
        assert(path == seq![sib] + spec_proof_path(next, i / 2));
        assert(path[0] == sib);
        assert(path.skip(1) =~= spec_proof_path(next, i / 2));
        let step = if i % 2 == 0 {
            node_hash(level[i as int], sib)
        } else {
            node_hash(sib, level[i as int])
        };
        if i % 2 == 0 {
            assert(2 * ((i as int) / 2) == i);
            assert(next[(i as int) / 2] == step);
        } else {
            assert(2 * ((i as int) / 2) + 1 == i);
            assert(next[(i as int) / 2] == node_hash(level[i as int - 1], level[i as int]));
            assert(next[(i as int) / 2] == step);
        }
        assert(i / 2 < next.len());
        lemma_climb_proof_path(next, i / 2);
        assert(climb(level[i as int], i, path) == climb(step, i / 2, path.skip(1)));
    }
}

/// Round trip: for every payload and every valid chunk index, the proof path
/// generated for that index recomputes exactly the commitment root of the
/// payload's chunks.
pub proof fn lemma_round_trip(chunks: Seq<Seq<u8>>, i: nat)
    requires
        i < chunks.len(),
    ensures
        climb(
            leaf_hash(chunks[i as int]),
            i,
            spec_proof_path(chunks.map_values(|c: Seq<u8>| leaf_hash(c)), i),
        ) == merkle_root(chunks),
{
    let leaves = chunks.map_values(|c: Seq<u8>| leaf_hash(c));
    assert(leaves[i as int] == leaf_hash(chunks[i as int]));
    lemma_climb_proof_path(leaves, i);
}

/// Computes the next level of the tree from the current one.
fn build_next_level(level: &Vec<Vec<u8>>) -> (r: Vec<Vec<u8>>)
    requires
        2 <= level@.len() < usize::MAX,
    ensures
        r.deep_view() == next_level(level.deep_view()),
        r@.len() == (level@.len() + 1) / 2,
{
    let mut next: Vec<Vec<u8>> = Vec::new();
    let mut j: usize = 0;
    while j < level.len()
        invariant
            level@.len() < usize::MAX,
            j % 2 == 0,
            j <= level@.len() + 1,
            next@.len() == j / 2,
            forall|k: int|
                0 <= k < next@.len() ==> #[trigger] next.deep_view()[k] == next_level(
                    level.deep_view(),
                )[k],
        decreases level@.len() + 1 - j,
    {
        let h = if j + 1 < level.len() {
            combine(&level[j], &level[j + 1])
        } else {
            combine(&level[j], &level[j])
        };
        let ghost old_next = next.deep_view();
        next.push(h);
        proof {
            let lv = level.deep_view();
            assert(lv[j as int] == level@[j as int]@);
            assert(2 * (j as int / 2) == j as int);
            if j + 1 < level@.len() {
                assert(lv[j as int + 1] == level@[j as int + 1]@);
                assert(h@ == node_hash(lv[j as int], lv[j as int + 1]));
            } else {
                assert(h@ == node_hash(lv[j as int], lv[j as int]));
            }
            assert(next.deep_view() =~~= old_next.push(h@));
            assert(next.deep_view()[j as int / 2] == next_level(lv)[j as int / 2]);
        }
        j = j + 2;
    }
    proof {
        assert(j as int / 2 == (level.deep_view().len() + 1) / 2);
        assert(next.deep_view() =~= next_level(level.deep_view()));
    }
    next
}

/// The digests of the chunks, in chunk order: the leaf level of the tree.
fn leaf_level(chunks: &Vec<Vec<u8>>) -> (r: Vec<Vec<u8>>)
    ensures
        r.deep_view() == chunks.deep_view().map_values(|c: Seq<u8>| leaf_hash(c)),
        r@.len() == chunks@.len(),
{
    let mut leaves: Vec<Vec<u8>> = Vec::new();
    let mut i: usize = 0;
    while i < chunks.len()
        invariant
            i <= chunks@.len(),
            leaves@.len() == i,
            forall|k: int|
                0 <= k < i ==> leaves.deep_view()[k] == leaf_hash(chunks.deep_view()[k]),
        decreases chunks@.len() - i,
    {
        let h = blake2_256(&chunks[i]);
        let ghost old_leaves = leaves.deep_view();
        leaves.push(h);
        proof {
            assert(chunks.deep_view()[i as int] == chunks@[i as int]@);
            assert(leaves.deep_view() =~~= old_leaves.push(h@));
            assert(leaves.deep_view()[i as int] == leaf_hash(chunks.deep_view()[i as int]));
        }
        i = i + 1;
    }
    proof {
        assert(leaves.deep_view() =~= chunks.deep_view().map_values(|c: Seq<u8>| leaf_hash(c)));
    }
    leaves
}

/// Builds the commitment root over a payload's chunks.
pub fn commit(chunks: &Vec<Vec<u8>>) -> (root: Vec<u8>)
    requires
        1 <= chunks@.len() < usize::MAX,
    ensures
        root@ == merkle_root(chunks.deep_view()),
{
    let mut level = leaf_level(chunks);
    while level.len() > 1
        invariant
            1 <= level@.len() < usize::MAX,
            root_of_level(level.deep_view()) == merkle_root(chunks.deep_view()),
        decreases level@.len(),
    {
        let ghost prev = level.deep_view();
        level = build_next_level(&level);
        proof {
            assert(root_of_level(prev) == root_of_level(next_level(prev)));
        }
    }
    proof {
        assert(level.deep_view()[0] == root_of_level(level.deep_view()));
    }
    level.remove(0)
}

/// Generates the inclusion proof for the chunk at `index`: the chunk's raw
/// bytes together with the sibling-hash path from its leaf to the root.
pub fn prove(chunks: &Vec<Vec<u8>>, index: u32) -> (p: ChunkProof)
    requires
        (index as int) < chunks@.len(),
        chunks@.len() < usize::MAX,
    ensures
        p.chunk_index == index,
        p.chunk_data@ == chunks.deep_view()[index as int],
        p.proof_path.deep_view() == spec_proof_path(
            chunks.deep_view().map_values(|c: Seq<u8>| leaf_hash(c)),
            index as nat,
        ),
{
    let ghost leaves = chunks.deep_view().map_values(|c: Seq<u8>| leaf_hash(c));
    let chunk_data = chunks[index as usize].clone();
    proof {
        assert(chunk_data@ =~= chunks.deep_view()[index as int]);
    }
    let mut level = leaf_level(chunks);
    let mut idx: usize = index as usize;
    let mut path: Vec<Vec<u8>> = Vec::new();
    proof {
        assert(Seq::<Seq<u8>>::empty() + spec_proof_path(leaves, index as nat) =~=
        spec_proof_path(leaves, index as nat));
    }
    while level.len() > 1
        invariant
            idx < level@.len() < usize::MAX,
            spec_proof_path(leaves, index as nat) == path.deep_view() + spec_proof_path(
                level.deep_view(),
                idx as nat,
            ),
        decreases level@.len(),
    {
        let sib = if idx % 2 == 0 {
            if idx + 1 < level.len() {
                level[idx + 1].clone()
            } else {
                level[idx].clone()
            }
        } else {
            level[idx - 1].clone()
        };
        proof {
            assert(sib@ =~= sibling_of(level.deep_view(), idx as nat));
            assert(spec_proof_path(level.deep_view(), idx as nat) == seq![
                sibling_of(level.deep_view(), idx as nat),
            ] + spec_proof_path(next_level(level.deep_view()), (idx as nat) / 2));
        }
        let ghost old_path = path.deep_view();
        path.push(sib);
        proof {
            assert(path.deep_view() =~~= old_path.push(sibling_of(level.deep_view(), idx as nat)));
            assert(path.deep_view() + spec_proof_path(
                next_level(level.deep_view()),
                (idx as nat) / 2,
            ) =~= old_path + spec_proof_path(level.deep_view(), idx as nat));
        }
        let new_level = build_next_level(&level);
        proof {
            assert((idx as int) / 2 < new_level.deep_view().len());
        }
        level = new_level;
        idx = idx / 2;
    }
    proof {
        assert(spec_proof_path(level.deep_view(), idx as nat) =~= Seq::<Seq<u8>>::empty());
        assert(path.deep_view() + Seq::<Seq<u8>>::empty() =~= path.deep_view());
    }
    ChunkProof { chunk_index: index, chunk_data, proof_path: path }
}

/// Recomputes the root from an inclusion proof and compares it with the
/// expected commitment. Returns true exactly when they agree. A pure
/// function of the proof and the expected root alone.
pub fn verify(proof: &ChunkProof, expected_root: &Vec<u8>) -> (r: bool)
    ensures
        r == (climb(
            leaf_hash(proof.chunk_data@),
            proof.chunk_index as nat,
            proof.proof_path.deep_view(),
        ) == expected_root@),
{
    let ghost full_path = proof.proof_path.deep_view();
    let mut h = blake2_256(&proof.chunk_data);
    let mut idx: u32 = proof.chunk_index;
    let mut k: usize = 0;
    proof {
        assert(full_path.skip(0) =~= full_path);
    }
    while k < proof.proof_path.len()
        invariant
            k <= full_path.len(),
            full_path == proof.proof_path.deep_view(),
            climb(leaf_hash(proof.chunk_data@), proof.chunk_index as nat, full_path) == climb(
                h@,
                idx as nat,
                full_path.skip(k as int),
            ),
        decreases full_path.len() - k,
    {
        let sib = &proof.proof_path[k];
        proof {
            assert(full_path[k as int] == proof.proof_path@[k as int]@);
            assert(full_path.skip(k as int)[0] == full_path[k as int]);
            assert(full_path.skip(k as int).skip(1) =~= full_path.skip(k as int + 1));
            assert(climb(h@, idx as nat, full_path.skip(k as int)) == climb(
                if idx % 2 == 0 {
                    node_hash(h@, full_path[k as int])
                } else {
                    node_hash(full_path[k as int], h@)
                },
                (idx as nat) / 2,
                full_path.skip(k as int + 1),
            ));
        }
        h = if idx % 2 == 0 {
            combine(&h, sib)
        } else {
            combine(sib, &h)
        };
        idx = idx / 2;
        k = k + 1;
    }
    proof {
        assert(full_path.skip(full_path.len() as int) =~= Seq::<Seq<u8>>::empty());
    }
    crate::hashing::bytes_eq(&h, expected_root)
}

} // verus!
