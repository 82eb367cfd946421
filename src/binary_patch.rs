//! Rebuilding a file from the old bytes and a chunk sequence.
use crate::patch_format::{DiffChunk, PatchError};
use vstd::prelude::*;

verus! {

/// The bytes that `c` contributes when replayed against `old`.
pub open spec fn chunk_output(old: Seq<u8>, c: DiffChunk) -> Seq<u8> {
    match c {
        DiffChunk::Copy { offset, length } => old.subrange(offset as int, offset + length),
        DiffChunk::Insert { data } => data@,
    }
}

/// A `Copy` stays within the old bytes.
pub open spec fn chunk_in_range(old_len: int, c: DiffChunk) -> bool {
    match c {
        DiffChunk::Copy { offset, length } => offset + length <= old_len,
        DiffChunk::Insert { .. } => true,
    }
}

pub open spec fn chunks_in_range(old_len: int, chunks: Seq<DiffChunk>) -> bool {
    forall|i: int| 0 <= i < chunks.len() ==> chunk_in_range(old_len, #[trigger] chunks[i])
}

/// The concatenation of every chunk's output, in order.
pub open spec fn apply_chunks(old: Seq<u8>, chunks: Seq<DiffChunk>) -> Seq<u8>
    decreases chunks.len(),
{
    if chunks.len() == 0 {
        Seq::empty()
    } else {
        apply_chunks(old, chunks.drop_last()) + chunk_output(old, chunks.last())
    }
}

/// Rebuilds the new file from `old` and `chunks`.
pub fn apply_diff(old: &[u8], chunks: &[DiffChunk]) -> (r: Vec<u8>)
    requires
        chunks_in_range(old@.len() as int, chunks@),
        apply_chunks(old@, chunks@).len() <= usize::MAX,
    ensures
        r@ == apply_chunks(old@, chunks@),
{
    let mut estimated: usize = 0;
    let mut k: usize = 0;
    while k < chunks.len()
        invariant
            k <= chunks@.len(),
        decreases chunks@.len() - k,
    {
        let n: usize = match &chunks[k] {
            DiffChunk::Copy { length, .. } => if *length <= usize::MAX as u64 {
                *length as usize
            } else {
                usize::MAX
            },
            DiffChunk::Insert { data } => data.len(),
        };
        estimated = estimated.saturating_add(n);
        k = k + 1;
    }
    let mut result: Vec<u8> = Vec::with_capacity(estimated);
    let mut i: usize = 0;
    while i < chunks.len()
        invariant
            i <= chunks@.len(),
            chunks_in_range(old@.len() as int, chunks@),
            apply_chunks(old@, chunks@).len() <= usize::MAX,
            result@ == apply_chunks(old@, chunks@.subrange(0, i as int)),
        decreases chunks@.len() - i,
    {
        proof {
            let pre = chunks@.subrange(0, i as int);
            let cur = chunks@.subrange(0, i as int + 1);
            assert(cur.drop_last() =~= pre);
            lemma_apply_chunks_prefix_len(old@, chunks@, i as int + 1);
            assert(chunk_in_range(old@.len() as int, chunks@[i as int]));
        }
        match &chunks[i] {
            DiffChunk::Copy { offset, length } => {
                assert(*offset + *length <= old@.len());
                assert(old@.len() == old.len());
                let end64: u64 = *offset + *length;
                let start = *offset as usize;
                let end = end64 as usize;
                let piece = &old[start..end];
                assert(piece@ =~= old@.subrange(start as int, end as int));
                result.extend_from_slice(piece);
            },
            DiffChunk::Insert { data } => {
                result.extend_from_slice(data.as_slice());
            },
        }
        i = i + 1;
    }
    proof {
        assert(chunks@.subrange(0, chunks@.len() as int) =~= chunks@);
    }
    result
}

/// Rebuilds the new file; reports `CopyOutOfRange` where a `Copy` reaches past `old`, and
/// `OutputTooLarge` where the rebuilt file could not be held in memory.
pub fn try_apply_diff(old: &[u8], chunks: &[DiffChunk]) -> (r: Result<Vec<u8>, PatchError>)
    ensures
        !chunks_in_range(old@.len() as int, chunks@) <==> r == Err::<Vec<u8>, PatchError>(
            PatchError::CopyOutOfRange,
        ),
        chunks_in_range(old@.len() as int, chunks@) && apply_chunks(old@, chunks@).len() > usize::MAX
            <==> r == Err::<Vec<u8>, PatchError>(PatchError::OutputTooLarge),
        chunks_in_range(old@.len() as int, chunks@) && apply_chunks(old@, chunks@).len() <= usize::MAX
            ==> r is Ok,
        r matches Ok(v) ==> v@ == apply_chunks(old@, chunks@),
{
    let mut i: usize = 0;
    let mut total: usize = 0;
    while i < chunks.len()
        invariant
            i <= chunks@.len(),
            forall|j: int| 0 <= j < i ==> chunk_in_range(old@.len() as int, #[trigger] chunks@[j]),
            total == apply_chunks(old@, chunks@.subrange(0, i as int)).len(),
        decreases chunks@.len() - i,
    {
        let ghost pre = chunks@.subrange(0, i as int);
        proof {
            assert(chunks@.subrange(0, i + 1).drop_last() =~= pre);
        }
        let n: usize = match &chunks[i] {
            DiffChunk::Copy { offset, length } => {
                if *length > old.len() as u64 || *offset > old.len() as u64 - *length {
                    return Err(PatchError::CopyOutOfRange);
                }
                *length as usize
            },
            DiffChunk::Insert { data } => data.len(),
        };
        match total.checked_add(n) {
            Some(t) => {
                total = t;
            },
            None => {
                let mut j: usize = i + 1;
                while j < chunks.len()
                    invariant
                        i < j <= chunks@.len(),
                        forall|m: int| 0 <= m < j ==> chunk_in_range(old@.len() as int, #[trigger] chunks@[m]),
                    decreases chunks@.len() - j,
                {
                    match &chunks[j] {
                        DiffChunk::Copy { offset, length } => {
                            if *length > old.len() as u64 || *offset > old.len() as u64 - *length {
                                return Err(PatchError::CopyOutOfRange);
                            }
                        },
                        DiffChunk::Insert { .. } => {},
                    }
                    j = j + 1;
                }
                proof {
                    lemma_apply_chunks_prefix_len(old@, chunks@, i + 1);
                }
                return Err(PatchError::OutputTooLarge);
            },
        }
        i = i + 1;
    }
    proof {
        assert(chunks@.subrange(0, chunks@.len() as int) =~= chunks@);
    }
    Ok(apply_diff(old, chunks))
}

/// The output length of the first `k` chunks never exceeds that of the whole sequence.
proof fn lemma_apply_chunks_prefix_len(old: Seq<u8>, chunks: Seq<DiffChunk>, k: int)
    requires
        0 <= k <= chunks.len(),
        chunks_in_range(old.len() as int, chunks),
    ensures
        apply_chunks(old, chunks.subrange(0, k)).len() <= apply_chunks(old, chunks).len(),
    decreases chunks.len() - k,
{
    if k < chunks.len() {
        lemma_apply_chunks_prefix_len(old, chunks, k + 1);
        assert(chunks.subrange(0, k + 1).drop_last() =~= chunks.subrange(0, k));
    } else {
        assert(chunks.subrange(0, k) =~= chunks);
    }
}

} // verus!
