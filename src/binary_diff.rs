//! rsync-style block differ: old bytes are cut into fixed blocks, the new bytes are scanned
//! with a rolling window, and every window that equals a block becomes a `Copy`.
use crate::binary_patch::{apply_chunks, chunk_in_range, chunk_output, chunks_in_range};
use crate::patch_format::DiffChunk;
use crate::rolling_hash::{lemma_rotate_matches_init, window_digest, RollingHash};
use crate::util::{blake3_of, bytes_to_vec, hash_bytes, index_by_key, same_bytes};
use std::collections::HashMap;
use vstd::prelude::*;
use vstd::std_specs::hash::group_hash_axioms;

verus! {

pub const BLOCK_SIZE: usize = 4096;

/// Block `i` of `old`: bytes `[4096·i, min(4096·i + 4096, |old|))`.
pub open spec fn old_block(old: Seq<u8>, i: int) -> Seq<u8> {
    old.subrange(
        i * BLOCK_SIZE,
        if i * BLOCK_SIZE + BLOCK_SIZE <= old.len() {
            i * BLOCK_SIZE + BLOCK_SIZE
        } else {
            old.len() as int
        },
    )
}

/// Number of blocks that `old` is cut into (the last one may be short).
pub open spec fn num_blocks(old_len: int) -> int {
    (old_len + BLOCK_SIZE - 1) / (BLOCK_SIZE as int)
}

/// A `Copy` names one whole block of the old bytes.
pub open spec fn is_block_copy(old_len: int, c: DiffChunk) -> bool {
    match c {
        DiffChunk::Copy { offset, length } => {
            &&& (offset as int) % (BLOCK_SIZE as int) == 0
            &&& offset < old_len
            &&& length == if offset + BLOCK_SIZE <= old_len {
                BLOCK_SIZE as int
            } else {
                old_len - offset
            }
        },
        DiffChunk::Insert { .. } => true,
    }
}

/// Number of `Copy` chunks in `chunks`.
pub open spec fn copy_count(chunks: Seq<DiffChunk>) -> int
    decreases chunks.len(),
{
    if chunks.len() == 0 {
        0
    } else {
        copy_count(chunks.drop_last()) + if chunks.last() is Copy {
            1int
        } else {
            0int
        }
    }
}

/// Every `Copy` names a whole block, no `Insert` is empty, and no two `Insert`s are adjacent.
pub open spec fn chunks_well_cut(old_len: int, chunks: Seq<DiffChunk>) -> bool {
    &&& forall|i: int| 0 <= i < chunks.len() ==> is_block_copy(old_len, #[trigger] chunks[i])
    &&& forall|i: int|
        0 <= i < chunks.len() && (#[trigger] chunks[i] is Insert) ==> chunks[i]->data@.len() > 0
    &&& forall|i: int|
        0 <= i < chunks.len() - 1 && (#[trigger] chunks[i] is Insert) ==> chunks[i + 1] is Copy
}

struct BlockSignature {
    rolling_hash: u32,
    strong_hash: [u8; 32],
    offset: u64,
}

spec fn signatures_of(old: Seq<u8>, sigs: Seq<BlockSignature>) -> bool {
    &&& sigs.len() == num_blocks(old.len() as int)
    &&& forall|i: int|
        0 <= i < sigs.len() ==> {
            &&& (#[trigger] sigs[i]).offset == i * BLOCK_SIZE
            &&& sigs[i].rolling_hash == window_digest(old_block(old, i))
            &&& sigs[i].strong_hash@ == blake3_of(old_block(old, i))
        }
}

/// Every index that the table lists under a key is a signature with that rolling hash,
/// and every signature is listed under its own rolling hash.
spec fn table_of(table: Map<u32, Vec<usize>>, sigs: Seq<BlockSignature>) -> bool {
    &&& forall|k: u32, j: int|
        #![trigger table[k]@[j]]
        table.contains_key(k) && 0 <= j < table[k]@.len() ==> {
            &&& table[k]@[j] < sigs.len()
            &&& sigs[table[k]@[j] as int].rolling_hash == k
        }
    &&& forall|i: int|
        0 <= i < sigs.len() ==> table.contains_key((#[trigger] sigs[i]).rolling_hash)
            && table[sigs[i].rolling_hash]@.contains(i as usize)
}

/// No whole block of `old` equals the window of `new` that starts at `q`.
pub open spec fn no_block_at(old: Seq<u8>, new: Seq<u8>, q: int) -> bool {
    forall|j: int|
        0 <= j < num_blocks(old.len() as int) ==> #[trigger] old_block(old, j) != new.subrange(q, q + BLOCK_SIZE)
}

/// Byte `q` of the rebuilt output comes from an `Insert` chunk.
pub open spec fn literal_at(old: Seq<u8>, chunks: Seq<DiffChunk>, q: int) -> bool
    decreases chunks.len(),
{
    if chunks.len() == 0 {
        false
    } else {
        let pre = apply_chunks(old, chunks.drop_last()).len() as int;
        if pre <= q < pre + chunk_output(old, chunks.last()).len() {
            chunks.last() is Insert
        } else {
            literal_at(old, chunks.drop_last(), q)
        }
    }
}

/// A byte is sent as a literal only where the window starting at it could not be copied:
/// no whole old block equals it (or fewer than 4096 bytes of `new` are left from it).
pub open spec fn literals_unmatched(old: Seq<u8>, new: Seq<u8>, chunks: Seq<DiffChunk>) -> bool {
    forall|q: int|
        0 <= q && q + BLOCK_SIZE <= new.len() && #[trigger] literal_at(old, chunks, q) ==> no_block_at(old, new, q)
}

/// `chunks` is what `compute_diff(old, new)` may return.
pub open spec fn is_diff_of(old: Seq<u8>, new: Seq<u8>, chunks: Seq<DiffChunk>) -> bool {
    &&& apply_chunks(old, chunks) == new
    &&& chunks_in_range(old.len() as int, chunks)
    &&& chunks_well_cut(old.len() as int, chunks) || (chunks.len() == 1 && chunks[0] is Insert)
    &&& old.len() == 0 ==> (new.len() == 0 <==> chunks.len() == 0)
    &&& old.len() == 0 && new.len() > 0 ==> chunks.len() == 1 && chunks[0] is Insert
    &&& old.len() > 0 && new.len() < BLOCK_SIZE ==> chunks.len() == 1 && chunks[0] is Insert
    &&& new.len() >= BLOCK_SIZE ==> chunks_well_cut(old.len() as int, chunks)
    &&& old == new && new.len() >= BLOCK_SIZE ==> copy_count(chunks) >= new.len() as int / (
    BLOCK_SIZE as int)
    &&& literals_unmatched(old, new, chunks)
}

/// Replaying a diff of `old` to `new` against `old` gives back `new`: the chunks stay
/// within `old`, so `apply_diff` accepts them, and it returns exactly `new`.
pub proof fn lemma_diff_round_trip(old: Seq<u8>, new: Seq<u8>, chunks: Seq<DiffChunk>)
    requires
        is_diff_of(old, new, chunks),
    ensures
        chunks_in_range(old.len() as int, chunks),
        apply_chunks(old, chunks) == new,
{
}

/// A diff of a buffer against itself rebuilds it and reuses at least one whole block per
/// 4096 bytes.
pub proof fn lemma_self_diff_copies_blocks(x: Seq<u8>, chunks: Seq<DiffChunk>)
    requires
        is_diff_of(x, x, chunks),
        x.len() >= BLOCK_SIZE,
    ensures
        apply_chunks(x, chunks) == x,
        copy_count(chunks) >= x.len() as int / (BLOCK_SIZE as int),
{
}

/// Computes the chunks that rebuild `new` from `old`.
///
/// A window whose rolling digest and strong hash both equal those of an old block is
/// confirmed byte for byte before it becomes a `Copy`, so a digest collision can never
/// corrupt the output.
pub fn compute_diff(old: &[u8], new: &[u8]) -> (r: Vec<DiffChunk>)
    ensures
        is_diff_of(old@, new@, r@),
{
    if old.len() == 0 {
        if new.len() == 0 {
            let r: Vec<DiffChunk> = Vec::new();
            proof {
                assert(apply_chunks(old@, r@) =~= new@);
            }
            return r;
        }
        return single_insert(old, new);
    }
    let signatures = build_signatures(old);
    let hash_table = build_hash_table(&signatures);
    match_blocks(old, new, &hash_table, &signatures)
}

fn single_insert(old: &[u8], new: &[u8]) -> (r: Vec<DiffChunk>)
    ensures
        apply_chunks(old@, r@) == new@,
        chunks_in_range(old@.len() as int, r@),
        r@.len() == 1,
        r@[0] is Insert,
        new@.len() > 0 ==> chunks_well_cut(old@.len() as int, r@),
{
    let data = bytes_to_vec(new);
    let mut r: Vec<DiffChunk> = Vec::new();
    r.push(DiffChunk::Insert { data });
    proof {
        assert(r@.drop_last() =~= Seq::<DiffChunk>::empty());
        assert(chunk_output(old@, r@[0]) == new@);
        assert(apply_chunks(old@, r@.drop_last()) =~= Seq::<u8>::empty());
        assert(apply_chunks(old@, r@) =~= new@);
    }
    r
}

fn build_signatures(data: &[u8]) -> (sigs: Vec<BlockSignature>)
    ensures
        signatures_of(data@, sigs@),
{
    let len = data.len();
    let count: usize = len / BLOCK_SIZE + if len % BLOCK_SIZE != 0 {
        1usize
    } else {
        0usize
    };
    assert(count == num_blocks(len as int));
    let mut sigs: Vec<BlockSignature> = Vec::with_capacity(count);
    let mut i: usize = 0;
    while i < count
        invariant
            len == data@.len(),
            count == num_blocks(len as int),
            i <= count,
            sigs@.len() == i,
            forall|j: int|
                0 <= j < i ==> {
                    &&& (#[trigger] sigs@[j]).offset == j * BLOCK_SIZE
                    &&& sigs@[j].rolling_hash == window_digest(old_block(data@, j))
                    &&& sigs@[j].strong_hash@ == blake3_of(old_block(data@, j))
                },
        decreases count - i,
    {
        let start = i * BLOCK_SIZE;
        let end = if len - start >= BLOCK_SIZE {
            start + BLOCK_SIZE
        } else {
            len
        };
        let block = &data[start..end];
        assert(block@ =~= old_block(data@, i as int));
        let mut rolling = RollingHash::new();
        rolling.init(block);
        let digest = rolling.digest();
        sigs.push(
            BlockSignature { rolling_hash: digest, strong_hash: hash_bytes(block), offset: start as u64 },
        );
        i = i + 1;
    }
    sigs
}

fn build_hash_table(signatures: &Vec<BlockSignature>) -> (table: HashMap<u32, Vec<usize>>)
    ensures
        table_of(table@, signatures@),
{
    let mut keys: Vec<u32> = Vec::with_capacity(signatures.len());
    let mut i: usize = 0;
    while i < signatures.len()
        invariant
            i <= signatures@.len(),
            keys@.len() == i,
            forall|j: int| 0 <= j < i ==> #[trigger] keys@[j] == signatures@[j].rolling_hash,
        decreases signatures@.len() - i,
    {
        keys.push(signatures[i].rolling_hash);
        i = i + 1;
    }
    let table = index_by_key(&keys);
    proof {
        assert forall|k: u32, j: int|
            #![trigger table@[k]@[j]]
            table@.contains_key(k) && 0 <= j < table@[k]@.len() implies {
                &&& table@[k]@[j] < signatures@.len()
                &&& signatures@[table@[k]@[j] as int].rolling_hash == k
            } by {
            assert(keys@[table@[k]@[j] as int] == k);
        }
        assert forall|i: int|
            0 <= i < signatures@.len() implies table@.contains_key((#[trigger] signatures@[i]).rolling_hash)
                && table@[signatures@[i].rolling_hash]@.contains(i as usize) by {
            assert(keys@[i] == signatures@[i].rolling_hash);
        }
    }
    table
}

/// Signature `idx` matches the window: its strong hash equals the window's, and its block,
/// compared byte for byte, equals the window too.
spec fn candidate_matches(old: Seq<u8>, sigs: Seq<BlockSignature>, window: Seq<u8>, idx: int) -> bool {
    &&& sigs[idx].strong_hash@ == blake3_of(window)
    &&& old_block(old, idx) == window
}

/// Position `w` of the candidate list holds the first candidate that matches the window.
spec fn first_candidate_at(old: Seq<u8>, sigs: Seq<BlockSignature>, list: Seq<usize>, window: Seq<u8>, w: int) -> bool {
    &&& 0 <= w < list.len()
    &&& candidate_matches(old, sigs, window, list[w] as int)
    &&& forall|v: int| 0 <= v < w ==> !#[trigger] candidate_matches(old, sigs, window, list[v] as int)
}

/// The offset and length of the first candidate listed under the rolling digest whose
/// strong hash matches the window and whose block, compared byte for byte, equals it.
fn find_match(
    rolling_digest: u32,
    new_block: &[u8],
    old: &[u8],
    hash_table: &HashMap<u32, Vec<usize>>,
    signatures: &Vec<BlockSignature>,
) -> (r: Option<(u64, u64)>)
    requires
        new_block@.len() == BLOCK_SIZE,
        old@.len() > 0,
        signatures_of(old@, signatures@),
        table_of(hash_table@, signatures@),
    ensures
        r matches Some((offset, length)) ==> {
            &&& is_block_copy(old@.len() as int, DiffChunk::Copy { offset, length })
            &&& length == BLOCK_SIZE
            &&& old@.subrange(offset as int, offset + length) == new_block@
        },
        (exists|j: int|
            0 <= j < signatures@.len() && old_block(old@, j) == new_block@
                && #[trigger] signatures@[j].rolling_hash == rolling_digest) ==> r is Some,
        !hash_table@.contains_key(rolling_digest) ==> r is None,
        hash_table@.contains_key(rolling_digest) ==> (r is Some <==> exists|w: int|
            0 <= w < hash_table@[rolling_digest]@.len() && #[trigger] candidate_matches(
                old@,
                signatures@,
                new_block@,
                hash_table@[rolling_digest]@[w] as int,
            )),
        r matches Some((offset, length)) ==> exists|w: int|
            #[trigger] first_candidate_at(old@, signatures@, hash_table@[rolling_digest]@, new_block@, w)
                && offset == signatures@[hash_table@[rolling_digest]@[w] as int].offset,
{
    broadcast use group_hash_axioms;

    let candidates = match hash_table.get(&rolling_digest) {
        Some(c) => c,
        None => {
            proof {
                if exists|j: int|
                    0 <= j < signatures@.len() && old_block(old@, j) == new_block@
                        && #[trigger] signatures@[j].rolling_hash == rolling_digest {
                    let j = choose|j: int|
                        0 <= j < signatures@.len() && old_block(old@, j) == new_block@
                            && #[trigger] signatures@[j].rolling_hash == rolling_digest;
                    assert(hash_table@.contains_key(signatures@[j].rolling_hash));
                }
            }
            return None;
        },
    };
    let new_strong = hash_bytes(new_block);
    let mut c: usize = 0;
    while c < candidates.len()
        invariant
            c <= candidates@.len(),
            hash_table@.contains_key(rolling_digest),
            candidates@ == hash_table@[rolling_digest]@,
            table_of(hash_table@, signatures@),
            signatures_of(old@, signatures@),
            new_block@.len() == BLOCK_SIZE,
            new_strong@ == blake3_of(new_block@),
            forall|w: int| 0 <= w < c ==> old_block(old@, #[trigger] candidates@[w] as int) != new_block@,
            forall|w: int| 0 <= w < c ==> !#[trigger] candidate_matches(old@, signatures@, new_block@, candidates@[w] as int),
        decreases candidates@.len() - c,
    {
        let sig_idx = candidates[c];
        assert(sig_idx == hash_table@[rolling_digest]@[c as int]);
        let sig = &signatures[sig_idx];
        assert(sig.offset == sig_idx * BLOCK_SIZE);
        let start = sig.offset as usize;
        let end = if old.len() - start >= BLOCK_SIZE {
            start + BLOCK_SIZE
        } else {
            old.len()
        };
        assert(old@.subrange(start as int, end as int) == old_block(old@, sig_idx as int));
        if same_bytes(&sig.strong_hash, &new_strong) {
            if same_bytes(&old[start..end], new_block) {
                proof {
                    assert(first_candidate_at(old@, signatures@, candidates@, new_block@, c as int));
                }
                return Some((sig.offset, BLOCK_SIZE as u64));
            }
        }
        c = c + 1;
    }
    let nsig = signatures.len();
    proof {
        if exists|j: int|
            0 <= j < signatures@.len() && old_block(old@, j) == new_block@
                && #[trigger] signatures@[j].rolling_hash == rolling_digest {
            let j = choose|j: int|
                0 <= j < signatures@.len() && old_block(old@, j) == new_block@
                    && #[trigger] signatures@[j].rolling_hash == rolling_digest;
            assert(candidates@.contains(j as usize));
            let w = choose|w: int| 0 <= w < candidates@.len() && candidates@[w] == j as usize;
            assert((j as usize) as int == j);
            assert(candidates@[w] as int == j);
            assert(old_block(old@, candidates@[w] as int) != new_block@);
            assert(false);
        }
    }
    None
}

/// What the scan has produced once it stands at `pos`.
spec fn scan_ok(old: Seq<u8>, new: Seq<u8>, pos: int, chunks: Seq<DiffChunk>, buf: Seq<u8>) -> bool {
    &&& apply_chunks(old, chunks) + buf == new.subrange(0, pos)
    &&& chunks_in_range(old.len() as int, chunks)
    &&& chunks_well_cut(old.len() as int, chunks)
    &&& chunks.len() > 0 ==> chunks.last() is Copy
    &&& old == new ==> {
        &&& pos % (BLOCK_SIZE as int) == 0
        &&& buf.len() == 0
        &&& copy_count(chunks) == pos / (BLOCK_SIZE as int)
    }
    &&& literals_unmatched(old, new, chunks)
    &&& forall|q: int|
        pos - buf.len() <= q < pos && q + BLOCK_SIZE <= new.len() ==> #[trigger] no_block_at(old, new, q)
}

/// Flushes the pending literal bytes and appends the `Copy` of a matched block.
fn emit_copy(
    old_data: &[u8],
    new_data: &[u8],
    chunks: &mut Vec<DiffChunk>,
    insert_buf: &mut Vec<u8>,
    pos: usize,
    offset: u64,
    length: u64,
)
    requires
        0 <= pos,
        pos + BLOCK_SIZE <= new_data@.len(),
        scan_ok(old_data@, new_data@, pos as int, old(chunks)@, old(insert_buf)@),
        is_block_copy(old_data@.len() as int, DiffChunk::Copy { offset, length }),
        length == BLOCK_SIZE,
        old_data@.subrange(offset as int, offset + length) == new_data@.subrange(pos as int, pos + BLOCK_SIZE),
    ensures
        scan_ok(old_data@, new_data@, pos + length, final(chunks)@, final(insert_buf)@),
        final(insert_buf)@.len() == 0,
{
    if insert_buf.len() > 0 {
        let ghost before = chunks@;
        let mut data: Vec<u8> = Vec::new();
        std::mem::swap(&mut data, insert_buf);
        chunks.push(DiffChunk::Insert { data });
        proof {
            assert(chunks@ == before.push(chunks@.last()));
            lemma_push_chunk(old_data@, before, chunks@.last());
            lemma_well_cut_push(old_data@.len() as int, before, chunks@.last());
            assert forall|q: int|
                0 <= q && q + BLOCK_SIZE <= new_data@.len() && #[trigger] literal_at(old_data@, chunks@, q) implies no_block_at(
                old_data@,
                new_data@,
                q,
            ) by {
                lemma_literal_at_push(old_data@, before, chunks@.last(), q);
            }
        }
    }
    let ghost before = chunks@;
    let ghost copy = DiffChunk::Copy { offset, length };
    chunks.push(DiffChunk::Copy { offset, length });
    proof {
        assert(chunks@ == before.push(copy));
        lemma_push_chunk(old_data@, before, copy);
        lemma_well_cut_push(old_data@.len() as int, before, copy);
        assert(chunks@.drop_last() =~= before);
        assert(new_data@.subrange(0, pos + length) =~= new_data@.subrange(0, pos as int) + new_data@.subrange(
            pos as int,
            pos + BLOCK_SIZE,
        ));
        if old_data@ == new_data@ {
            assert((pos + BLOCK_SIZE) as int / (BLOCK_SIZE as int) == pos as int / (BLOCK_SIZE as int) + 1);
        }
        assert forall|q: int|
            0 <= q && q + BLOCK_SIZE <= new_data@.len() && #[trigger] literal_at(old_data@, chunks@, q) implies no_block_at(
            old_data@,
            new_data@,
            q,
        ) by {
            lemma_literal_at_push(old_data@, before, copy, q);
        }
    }
}

#[verifier::rlimit(100)]
#[verifier::spinoff_prover]
fn match_blocks(
    old: &[u8],
    new: &[u8],
    hash_table: &HashMap<u32, Vec<usize>>,
    signatures: &Vec<BlockSignature>,
) -> (r: Vec<DiffChunk>)
    requires
        old@.len() > 0,
        signatures_of(old@, signatures@),
        table_of(hash_table@, signatures@),
    ensures
        apply_chunks(old@, r@) == new@,
        chunks_in_range(old@.len() as int, r@),
        new@.len() < BLOCK_SIZE ==> r@.len() == 1 && r@[0] is Insert,
        new@.len() >= BLOCK_SIZE ==> chunks_well_cut(old@.len() as int, r@),
        old@ == new@ && new@.len() >= BLOCK_SIZE ==> copy_count(r@) == new@.len() as int / (
        BLOCK_SIZE as int),
        literals_unmatched(old@, new@, r@),
{
    if new.len() < BLOCK_SIZE {
        return single_insert(old, new);
    }
    let mut chunks: Vec<DiffChunk> = Vec::new();
    let mut insert_buf: Vec<u8> = Vec::new();
    let mut rolling = RollingHash::new();
    rolling.init(&new[0..BLOCK_SIZE]);
    assert(new@.subrange(0, BLOCK_SIZE as int) =~= new@.subrange(0, 0 + BLOCK_SIZE));
    let mut pos: usize = 0;
    proof {
        assert(apply_chunks(old@, chunks@) + insert_buf@ =~= new@.subrange(0, 0));
    }
    while new.len() - pos >= BLOCK_SIZE
        invariant
            old@.len() > 0,
            new@.len() >= BLOCK_SIZE,
            signatures_of(old@, signatures@),
            table_of(hash_table@, signatures@),
            pos <= new@.len(),
            rolling.wf(),
            pos + BLOCK_SIZE <= new@.len() ==> rolling.is_init_of(
                new@.subrange(pos as int, pos + BLOCK_SIZE),
            ),
            scan_ok(old@, new@, pos as int, chunks@, insert_buf@),
        decreases new@.len() - pos,
    {
        let window_end = pos + BLOCK_SIZE;
        let digest = rolling.digest();
        let window = &new[pos..window_end];
        let found = find_match(digest, window, old, hash_table, signatures);
        match found {
            Some((offset, length)) => {
                emit_copy(old, new, &mut chunks, &mut insert_buf, pos, offset, length);
                pos = pos + length as usize;
                if new.len() - pos >= BLOCK_SIZE {
                    rolling = RollingHash::new();
                    rolling.init(&new[pos..pos + BLOCK_SIZE]);
                }
            },
            None => {
                let ghost w = new@.subrange(pos as int, pos + BLOCK_SIZE);
                proof {
                    if old@ == new@ {
                        lemma_aligned_window_is_block(old@, signatures@, pos as int, digest);
                    }
                    assert forall|j: int| 0 <= j < num_blocks(old@.len() as int) implies #[trigger] old_block(old@, j)
                        != new@.subrange(pos as int, pos + BLOCK_SIZE) by {
                        if old_block(old@, j) == window@ {
                            assert(signatures@[j].rolling_hash == digest);
                        }
                    }
                    assert(no_block_at(old@, new@, pos as int));
                }
                insert_buf.push(new[pos]);
                proof {
                    assert(new@.subrange(0, pos + 1) =~= new@.subrange(0, pos as int).push(
                        new@[pos as int],
                    ));
                }
                pos = pos + 1;
                if new.len() - pos >= BLOCK_SIZE {
                    let c = new[pos + BLOCK_SIZE - 1];
                    proof {
                        lemma_rotate_matches_init(w, c);
                        assert(w.drop_first().push(c) =~= new@.subrange(pos as int, pos + BLOCK_SIZE));
                    }
                    rolling.rotate(new[pos - 1], c);
                }
            },
        }
    }
    let ghost produced = apply_chunks(old@, chunks@);
    let ghost buf0 = insert_buf@;
    assert(produced + buf0 == new@.subrange(0, pos as int));
    if pos < new.len() {
        insert_buf.extend_from_slice(&new[pos..new.len()]);
    }
    proof {
        assert(pos < new@.len() ==> insert_buf@ == buf0 + new@.subrange(pos as int, new@.len() as int));
        assert(pos >= new@.len() ==> insert_buf@ == buf0);
        let rest = new@.subrange(pos as int, new@.len() as int);
        assert(new@.subrange(0, pos as int) + rest =~= new@);
        assert(produced + (buf0 + rest) =~= (produced + buf0) + rest);
        assert(pos >= new@.len() ==> new@.subrange(0, pos as int) =~= new@);
        assert(produced + insert_buf@ =~= new@);
    }
    if insert_buf.len() > 0 {
        let ghost before = chunks@;
        chunks.push(DiffChunk::Insert { data: insert_buf });
        proof {
            assert(chunks@ == before.push(chunks@.last()));
            lemma_push_chunk(old@, before, chunks@.last());
            lemma_well_cut_push(old@.len() as int, before, chunks@.last());
            assert(chunks@.drop_last() =~= before);
            assert forall|q: int|
                0 <= q && q + BLOCK_SIZE <= new@.len() && #[trigger] literal_at(old@, chunks@, q) implies no_block_at(
                old@,
                new@,
                q,
            ) by {
                lemma_literal_at_push(old@, before, chunks@.last(), q);
                if q >= produced.len() {
                    assert(q < pos);
                }
            }
        }
    } else {
        proof {
            assert(apply_chunks(old@, chunks@) =~= new@);
        }
    }
    chunks
}

/// In a diff of a buffer against itself, an aligned window is the old block at its offset.
proof fn lemma_aligned_window_is_block(old: Seq<u8>, sigs: Seq<BlockSignature>, pos: int, digest: u32)
    requires
        signatures_of(old, sigs),
        0 <= pos,
        pos % (BLOCK_SIZE as int) == 0,
        pos + BLOCK_SIZE <= old.len(),
        digest == window_digest(old.subrange(pos, pos + BLOCK_SIZE)),
    ensures
        exists|j: int|
            0 <= j < sigs.len() && old_block(old, j) == old.subrange(pos, pos + BLOCK_SIZE)
                && #[trigger] sigs[j].rolling_hash == digest,
{
    let i = pos / (BLOCK_SIZE as int);
    assert(pos == i * BLOCK_SIZE);
    assert(old_block(old, i) =~= old.subrange(pos, pos + BLOCK_SIZE));
    assert(sigs[i].rolling_hash == digest);
}

proof fn lemma_literal_at_push(old: Seq<u8>, chunks: Seq<DiffChunk>, c: DiffChunk, q: int)
    ensures
        literal_at(old, chunks.push(c), q) == if apply_chunks(old, chunks).len() <= q < apply_chunks(
            old,
            chunks,
        ).len() + chunk_output(old, c).len() {
            c is Insert
        } else {
            literal_at(old, chunks, q)
        },
{
    assert(chunks.push(c).drop_last() =~= chunks);
}

proof fn lemma_push_chunk(old: Seq<u8>, chunks: Seq<DiffChunk>, c: DiffChunk)
    ensures
        apply_chunks(old, chunks.push(c)) == apply_chunks(old, chunks) + chunk_output(old, c),
{
    assert(chunks.push(c).drop_last() =~= chunks);
}

proof fn lemma_well_cut_push(old_len: int, chunks: Seq<DiffChunk>, c: DiffChunk)
    requires
        chunks_well_cut(old_len, chunks),
        chunks_in_range(old_len, chunks),
        is_block_copy(old_len, c),
        c is Insert ==> c->data@.len() > 0 && (chunks.len() > 0 ==> chunks.last() is Copy),
    ensures
        chunks_well_cut(old_len, chunks.push(c)),
        chunks_in_range(old_len, chunks.push(c)),
{
    let s = chunks.push(c);
    assert forall|i: int| 0 <= i < s.len() implies is_block_copy(old_len, #[trigger] s[i]) by {
        if i < chunks.len() {
            assert(s[i] == chunks[i]);
        }
    }
    assert forall|i: int| 0 <= i < s.len() implies chunk_in_range(old_len, #[trigger] s[i]) by {
        if i < chunks.len() {
            assert(s[i] == chunks[i]);
        }
    }
    assert forall|i: int| 0 <= i < s.len() && (#[trigger] s[i] is Insert) implies s[i]->data@.len()
        > 0 by {
        if i < chunks.len() {
            assert(s[i] == chunks[i]);
        }
    }
    assert forall|i: int| 0 <= i < s.len() - 1 && (#[trigger] s[i] is Insert) implies s[i + 1] is Copy by {
        assert(s[i] == chunks[i]);
        if i + 1 < chunks.len() {
            assert(s[i + 1] == chunks[i + 1]);
        }
    }
}

} // verus!
