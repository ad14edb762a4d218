use vstd::prelude::*;

verus! {

/// Size in bytes of one chunk, the atomic unit proven per challenge.
pub const CHUNK_SIZE: u32 = 256;

/// The chunks of a payload: consecutive pieces of `sz` bytes, the last piece
/// possibly shorter, in payload order. An empty payload has no chunks.
pub open spec fn spec_chunks(payload: Seq<u8>, sz: nat) -> Seq<Seq<u8>>
    recommends
        sz > 0,
    decreases payload.len(),
{
    if sz == 0 || payload.len() == 0 {
        Seq::empty()
    } else if payload.len() <= sz {
        seq![payload]
    } else {
        seq![payload.take(sz as int)] + spec_chunks(payload.skip(sz as int), sz)
    }
}

/// Number of chunks of a payload of length `len`: the ceiling of `len / sz`.
pub open spec fn spec_chunk_count(len: nat, sz: nat) -> nat
    recommends
        sz > 0,
{
    if sz == 0 {
        0
    } else {
        ((len + sz - 1) / sz as int) as nat
    }
}

/// The chunking yields exactly `ceil(len / sz)` pieces.
pub proof fn lemma_chunks_count(payload: Seq<u8>, sz: nat)
    requires
        sz > 0,
    ensures
        spec_chunks(payload, sz).len() == spec_chunk_count(payload.len(), sz),
    decreases payload.len(),
{
    if payload.len() == 0 {
        assert((sz - 1) as int / sz as int == 0) by (nonlinear_arith)
            requires
                sz > 0,
        ;
    } else if payload.len() <= sz {
        assert((payload.len() + sz - 1) / sz as int == 1) by (nonlinear_arith)
            requires
                0 < payload.len() <= sz,
        ;
    } else {
        lemma_chunks_count(payload.skip(sz as int), sz);
        assert((payload.len() - sz + sz - 1) / sz as int + 1 == (payload.len() + sz - 1)
            / sz as int) by (nonlinear_arith)
            requires
                sz > 0,
                payload.len() > sz,
        ;
    }
}

/// Every chunk is non-empty and no longer than `sz`.
pub proof fn lemma_chunks_sizes(payload: Seq<u8>, sz: nat)
    requires
        sz > 0,
    ensures
        forall|i: int|
            0 <= i < spec_chunks(payload, sz).len() ==> 0 < (
            #[trigger] spec_chunks(payload, sz)[i]).len() <= sz,
    decreases payload.len(),
{
    if payload.len() == 0 {
    } else if payload.len() <= sz {
    } else {
        lemma_chunks_sizes(payload.skip(sz as int), sz);
        assert forall|i: int| 0 <= i < spec_chunks(payload, sz).len() implies 0 < (
        #[trigger] spec_chunks(payload, sz)[i]).len() <= sz by {
            if i > 0 {
                assert(spec_chunks(payload, sz)[i] == spec_chunks(payload.skip(sz as int), sz)[i
                    - 1]);
            }
        }
    }
}

/// Concatenating the chunks in order restores the payload exactly: chunking
/// neither pads nor drops bytes.
pub proof fn lemma_chunks_flatten(payload: Seq<u8>, sz: nat)
    requires
        sz > 0,
    ensures
        spec_chunks(payload, sz).flatten() == payload,
    decreases payload.len(),
{
    if payload.len() == 0 {
        assert(spec_chunks(payload, sz).flatten() =~= payload);
    } else if payload.len() <= sz {
        let cs = spec_chunks(payload, sz);
        assert(cs.drop_first() =~= Seq::<Seq<u8>>::empty());
        assert(cs.flatten() == cs.first() + cs.drop_first().flatten());
        assert(Seq::<Seq<u8>>::empty().flatten() == Seq::<u8>::empty());
        assert(cs.first() + Seq::<u8>::empty() =~= payload);
    } else {
        lemma_chunks_flatten(payload.skip(sz as int), sz);
        let cs = spec_chunks(payload, sz);
        assert(cs.drop_first() =~= spec_chunks(payload.skip(sz as int), sz));
        assert(cs.first() == payload.take(sz as int));
        assert(cs.flatten() == cs.first() + cs.drop_first().flatten());
        assert(payload.take(sz as int) + payload.skip(sz as int) =~= payload);
    }
}

/// Splits `payload` into consecutive chunks of `chunk_size` bytes, the last
/// chunk possibly shorter.
pub fn chunk(payload: &Vec<u8>, chunk_size: u32) -> (r: Vec<Vec<u8>>)
    requires
        chunk_size > 0,
    ensures
        r.deep_view() == spec_chunks(payload@, chunk_size as nat),
{
    let mut r: Vec<Vec<u8>> = Vec::new();
    let mut offset: usize = 0;
    let sz = chunk_size as usize;
    proof {
        assert(payload@.skip(0) =~= payload@);
        assert(r.deep_view() =~= Seq::<Seq<u8>>::empty());
        assert(Seq::<Seq<u8>>::empty() + spec_chunks(payload@, sz as nat) =~= spec_chunks(
            payload@,
            sz as nat,
        ));
    }
    while offset < payload.len()
        invariant
            0 < sz == chunk_size as int,
            offset <= payload@.len(),
            spec_chunks(payload@, sz as nat) == r.deep_view() + spec_chunks(
                payload@.skip(offset as int),
                sz as nat,
            ),
        decreases payload@.len() - offset,
    {
        let end = if payload.len() - offset > sz {
            offset + sz
        } else {
            payload.len()
        };
        let mut piece: Vec<u8> = Vec::new();
        let mut j: usize = offset;
        while j < end
            invariant
                offset <= j <= end <= payload@.len(),
                piece@ == payload@.subrange(offset as int, j as int),
            decreases end - j,
        {
            piece.push(payload[j]);
            proof {
                assert(piece@ =~= payload@.subrange(offset as int, j + 1));
            }
            j = j + 1;
        }
        proof {
            let rest = payload@.skip(offset as int);
            if rest.len() <= sz {
                assert(piece@ =~= rest);
                assert(spec_chunks(rest, sz as nat) =~= seq![piece@]);
                assert(r.deep_view().push(piece@) + Seq::<Seq<u8>>::empty() =~= r.deep_view().push(
                    piece@,
                ));
            } else {
                assert(piece@ =~= rest.take(sz as int));
                assert(rest.skip(sz as int) =~= payload@.skip(offset + sz));
                assert(spec_chunks(rest, sz as nat) == seq![rest.take(sz as int)] + spec_chunks(
                    rest.skip(sz as int),
                    sz as nat,
                ));
            }
            assert(r.deep_view() + spec_chunks(rest, sz as nat) =~= r.deep_view().push(piece@)
                + spec_chunks(payload@.skip(end as int), sz as nat));
        }
        let ghost old_r = r.deep_view();
        r.push(piece);
        proof {
            assert(r.deep_view() =~~= old_r.push(piece@));
        }
        offset = end;
    }
    proof {
        assert(payload@.skip(offset as int) =~= payload@.skip(payload@.len() as int));
        assert(spec_chunks(payload@.skip(offset as int), sz as nat) =~= Seq::<Seq<u8>>::empty());
        assert(r.deep_view() + Seq::<Seq<u8>>::empty() =~= r.deep_view());
    }
    r
}

} // verus!
