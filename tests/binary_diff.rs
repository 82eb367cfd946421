use patcher::binary_diff::{compute_diff, BLOCK_SIZE};
use patcher::binary_patch::apply_diff;
use patcher::patch_format::DiffChunk;

fn copies(chunks: &[DiffChunk]) -> usize {
    chunks.iter().filter(|c| matches!(c, DiffChunk::Copy { .. })).count()
}

#[test]
fn test_identical_data() {
    let data = vec![42u8; BLOCK_SIZE * 3];
    let chunks = compute_diff(&data, &data);
    let result = apply_diff(&data, &chunks);
    assert_eq!(result, data);
}

#[test]
fn test_completely_different() {
    let old = vec![0u8; BLOCK_SIZE * 2];
    let new = vec![1u8; BLOCK_SIZE * 2];
    let chunks = compute_diff(&old, &new);
    let result = apply_diff(&old, &chunks);
    assert_eq!(result, new);
}

#[test]
fn test_prefix_changed() {
    let old = vec![0u8; BLOCK_SIZE * 4];
    let mut new = old.clone();
    for b in new[..BLOCK_SIZE].iter_mut() {
        *b = 0xFF;
    }

    let chunks = compute_diff(&old, &new);
    let result = apply_diff(&old, &chunks);
    assert_eq!(result, new);

    let copy_count = copies(&chunks);
    assert!(copy_count >= 3, "Expected at least 3 Copy chunks for unchanged blocks");
}

#[test]
fn test_empty_old() {
    let old = vec![];
    let new = vec![1u8; 100];
    let chunks = compute_diff(&old, &new);
    let result = apply_diff(&old, &chunks);
    assert_eq!(result, new);
}

#[test]
fn test_empty_new() {
    let old = vec![1u8; 100];
    let new = vec![];
    let chunks = compute_diff(&old, &new);
    let result = apply_diff(&old, &chunks);
    assert_eq!(result, new);
}

#[test]
fn test_small_files() {
    let old = b"Hello, World!".to_vec();
    let new = b"Hello, Rust!".to_vec();
    let chunks = compute_diff(&old, &new);
    let result = apply_diff(&old, &chunks);
    assert_eq!(result, new);
}

#[test]
fn test_insertion_in_middle() {
    let mut old = vec![0u8; BLOCK_SIZE * 4];
    for (i, b) in old.iter_mut().enumerate() {
        *b = (i % 256) as u8;
    }
    let mut new = old.clone();
    let insert_pos = BLOCK_SIZE * 2;
    let insertion = vec![0xAA; 100];
    new.splice(insert_pos..insert_pos, insertion);

    let chunks = compute_diff(&old, &new);
    let result = apply_diff(&old, &chunks);
    assert_eq!(result, new);
}

#[test]
fn both_empty_gives_no_chunks() {
    let chunks = compute_diff(&[], &[]);
    assert!(chunks.is_empty());
}

#[test]
fn empty_old_gives_single_insert() {
    let new = vec![7u8; 5000];
    let chunks = compute_diff(&[], &new);
    assert_eq!(chunks.len(), 1);
    assert!(matches!(&chunks[0], DiffChunk::Insert { data } if *data == new));
}

#[test]
fn short_new_gives_single_insert() {
    let old = vec![3u8; BLOCK_SIZE * 2];
    let new = vec![3u8; BLOCK_SIZE - 1];
    let chunks = compute_diff(&old, &new);
    assert_eq!(chunks.len(), 1);
    assert!(matches!(&chunks[0], DiffChunk::Insert { data } if *data == new));
}

#[test]
fn self_diff_copies_every_whole_block() {
    let x: Vec<u8> = (0..(BLOCK_SIZE * 3 + 17)).map(|i| (i * 31 % 256) as u8).collect();
    let chunks = compute_diff(&x, &x);
    assert_eq!(apply_diff(&x, &chunks), x);
    assert!(copies(&chunks) >= x.len() / BLOCK_SIZE);
    assert_eq!(copies(&chunks), 3);
}

#[test]
fn prefix_only_change_scenario() {
    let old: Vec<u8> = (0..BLOCK_SIZE * 4).map(|i| (i % 253) as u8).collect();
    let mut new = old.clone();
    for b in new[..BLOCK_SIZE].iter_mut() {
        *b = 0xFF;
    }
    let chunks = compute_diff(&old, &new);
    assert_eq!(apply_diff(&old, &chunks), new);
    let offsets: Vec<u64> = chunks
        .iter()
        .filter_map(|c| match c {
            DiffChunk::Copy { offset, length } => {
                assert_eq!(*length, BLOCK_SIZE as u64);
                Some(*offset)
            }
            DiffChunk::Insert { .. } => None,
        })
        .collect();
    assert_eq!(offsets, vec![4096, 8192, 12288]);
    let inserts: Vec<usize> = chunks
        .iter()
        .filter_map(|c| match c {
            DiffChunk::Insert { data } => Some(data.len()),
            DiffChunk::Copy { .. } => None,
        })
        .collect();
    assert_eq!(inserts, vec![BLOCK_SIZE]);
}

#[test]
fn middle_insertion_scenario() {
    let old: Vec<u8> = (0..BLOCK_SIZE * 4).map(|i| (i % 256) as u8).collect();
    let mut new = old.clone();
    new.splice(8192..8192, vec![0xAA; 100]);
    let chunks = compute_diff(&old, &new);
    assert_eq!(apply_diff(&old, &chunks), new);
    assert!(copies(&chunks) >= 2);
}

#[test]
fn copies_stay_within_old() {
    let old: Vec<u8> = (0..BLOCK_SIZE * 2 + 100).map(|i| (i % 199) as u8).collect();
    let mut new = old[BLOCK_SIZE..].to_vec();
    new.extend_from_slice(&old[..BLOCK_SIZE]);
    let chunks = compute_diff(&old, &new);
    assert_eq!(apply_diff(&old, &chunks), new);
    for c in &chunks {
        if let DiffChunk::Copy { offset, length } = c {
            assert_eq!(offset % BLOCK_SIZE as u64, 0);
            assert!(offset + length <= old.len() as u64);
        }
    }
    assert!(copies(&chunks) >= 2);
}
