use patcher::binary_patch::{apply_diff, try_apply_diff};
use patcher::patch_format::{DiffChunk, PatchError};

#[test]
fn test_apply_copy_only() {
    let old = b"Hello, World!";
    let chunks = vec![DiffChunk::Copy {
        offset: 0,
        length: old.len() as u64,
    }];
    let result = apply_diff(old, &chunks);
    assert_eq!(result, old);
}

#[test]
fn test_apply_insert_only() {
    let old = b"";
    let new_data = b"Brand new content";
    let chunks = vec![DiffChunk::Insert {
        data: new_data.to_vec(),
    }];
    let result = apply_diff(old, &chunks);
    assert_eq!(result, new_data);
}

#[test]
fn test_apply_mixed() {
    let old = b"AAAA_BBBB_CCCC";
    let chunks = vec![
        DiffChunk::Copy {
            offset: 0,
            length: 5,
        },
        DiffChunk::Insert {
            data: b"XXXX_".to_vec(),
        },
        DiffChunk::Copy {
            offset: 10,
            length: 4,
        },
    ];
    let result = apply_diff(old, &chunks);
    assert_eq!(result, b"AAAA_XXXX_CCCC");
}

#[test]
fn test_apply_empty_chunks() {
    let old = b"some data";
    let chunks: Vec<DiffChunk> = vec![];
    let result = apply_diff(old, &chunks);
    assert!(result.is_empty());
}

#[test]
fn try_apply_rejects_copy_past_end() {
    let old = b"0123456789";
    let chunks = vec![DiffChunk::Copy { offset: 8, length: 3 }];
    assert_eq!(try_apply_diff(old, &chunks), Err(PatchError::CopyOutOfRange));
}

#[test]
fn try_apply_rejects_offset_overflow() {
    let old = b"0123456789";
    let chunks = vec![DiffChunk::Copy { offset: u64::MAX, length: 2 }];
    assert_eq!(try_apply_diff(old, &chunks), Err(PatchError::CopyOutOfRange));
}

#[test]
fn try_apply_accepts_copy_up_to_end() {
    let old = b"0123456789";
    let chunks = vec![
        DiffChunk::Copy { offset: 7, length: 3 },
        DiffChunk::Insert { data: b"-".to_vec() },
        DiffChunk::Copy { offset: 0, length: 2 },
    ];
    assert_eq!(try_apply_diff(old, &chunks), Ok(b"789-01".to_vec()));
}
