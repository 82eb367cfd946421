use patcher::apply::{check_content, orphan_delete_files, patch_file, plan_apply, root_deleted_dirs, ApplyPlan};
use patcher::create::{add_file_op, assemble_manifest, classify, is_incompressible, modify_file_op};
use patcher::patch_format::{
    frame_patch, patch_payload, seal_patch, ApplySummary, DiffChunk, PatchError, PatchManifest, PatchOp,
    FORMAT_VERSION,
};
use patcher::util::{
    hash_bytes, is_valid_wire_path, path_set, sort_dirs_deepest_first,
    sort_dirs_parent_first, DirEntry, EntryKind,
};
use std::collections::BTreeMap;

type Tree = BTreeMap<String, Option<Vec<u8>>>;

fn tree(files: &[(&str, Vec<u8>)], dirs: &[&str]) -> Tree {
    let mut t = Tree::new();
    for d in dirs {
        t.insert(d.to_string(), None);
    }
    for (p, data) in files {
        t.insert(p.to_string(), Some(data.clone()));
    }
    t
}

fn entries(t: &Tree) -> Vec<DirEntry> {
    t.iter()
        .map(|(p, c)| DirEntry {
            relative_path: p.clone(),
            kind: if c.is_some() { EntryKind::File } else { EntryKind::Dir },
            size: c.as_ref().map(|d| d.len() as u64).unwrap_or(0),
        })
        .collect()
}

/// Runs the creation pipeline on in-memory trees.
fn create(old: &Tree, new: &Tree) -> (PatchManifest, ApplySummary) {
    let old_entries = entries(old);
    let new_entries = entries(new);
    let c = classify(&old_entries, &new_entries);
    let mut adds = Vec::new();
    for &ni in &c.files_to_add {
        let path = new_entries[ni].relative_path.clone();
        let data = new[&path].clone().unwrap();
        adds.push(add_file_op(path, data));
    }
    let mut mods = Vec::new();
    for &(oi, ni) in &c.files_maybe_modified {
        let path = new_entries[ni].relative_path.clone();
        let old_data = old[&old_entries[oi].relative_path].clone().unwrap();
        let new_data = new[&path].clone().unwrap();
        if let Some(op) = modify_file_op(path, &old_data, &new_data) {
            mods.push(op);
        }
    }
    assemble_manifest(c.dirs_to_create, adds, mods, c.files_to_delete, c.dirs_to_delete)
}

/// Runs the application pipeline on an in-memory tree.
fn apply(target: &mut Tree, manifest: PatchManifest) -> Result<ApplySummary, PatchError> {
    let plan: ApplyPlan = plan_apply(manifest)?;
    for d in &plan.root_deleted_dirs {
        let prefix = format!("{}/", d);
        target.retain(|p, _| p != d && !p.starts_with(&prefix));
    }
    for f in &plan.orphan_delete_files {
        target.remove(f);
    }
    for d in &plan.create_dirs {
        target.insert(d.clone(), None);
    }
    for op in &plan.add_files {
        if let PatchOp::AddFile { path, data, blake3_hash } = op {
            check_content(data, blake3_hash)?;
            target.insert(path.clone(), Some(data.clone()));
        }
    }
    for op in &plan.modify_files {
        if let PatchOp::ModifyFile { path, diff_chunks, new_blake3_hash } = op {
            let old = target[path].clone().unwrap();
            let rebuilt = patch_file(&old, diff_chunks, new_blake3_hash)?;
            target.insert(path.clone(), Some(rebuilt));
        }
    }
    Ok(plan.summary)
}

fn summary(d: usize, a: usize, m: usize, fd: usize, dd: usize) -> ApplySummary {
    ApplySummary { dirs_created: d, files_added: a, files_modified: m, files_deleted: fd, dirs_deleted: dd }
}

fn scenario_old() -> Tree {
    tree(
        &[
            ("readme.txt", b"Hello, World! This is version 1.".to_vec()),
            ("config/settings.json", b"{\"version\": 1, \"debug\": false}".to_vec()),
            ("data/records.bin", vec![0xAA; 8192]),
            ("data/old_file.txt", b"This file will be deleted".to_vec()),
            ("obsolete/remove_me.txt", b"Going away".to_vec()),
        ],
        &["config", "data", "obsolete"],
    )
}

fn scenario_new() -> Tree {
    let mut records = vec![0xAA; 4096];
    records.extend(vec![0xBB; 4096]);
    tree(
        &[
            ("readme.txt", b"Hello, World! This is version 2 with new features.".to_vec()),
            ("config/settings.json", b"{\"version\": 2, \"debug\": true, \"newField\": 42}".to_vec()),
            ("data/records.bin", records),
            ("data/new_file.txt", b"Brand new file in version 2".to_vec()),
            ("extras/bonus.dat", vec![0xFF; 1024]),
        ],
        &["config", "data", "extras"],
    )
}

#[test]
fn test_end_to_end_full_patch_cycle() {
    let old = scenario_old();
    let new = scenario_new();
    let (manifest, s) = create(&old, &new);
    assert_eq!(s, summary(1, 2, 3, 2, 1));
    assert_eq!(manifest.version, FORMAT_VERSION);
    let mut target = old.clone();
    let applied = apply(&mut target, manifest).unwrap();
    assert_eq!(applied, s);
    assert_eq!(target, new);
}

#[test]
fn test_no_changes() {
    let t = tree(&[("a.txt", b"Same content".to_vec()), ("sub/b.txt", b"Also same".to_vec())], &["sub"]);
    let (manifest, s) = create(&t, &t);
    assert_eq!(s, summary(0, 0, 0, 0, 0));
    assert!(manifest.operations.is_empty());
    let mut target = t.clone();
    assert_eq!(apply(&mut target, manifest).unwrap(), s);
    assert_eq!(target, t);
}

#[test]
fn test_empty_to_full() {
    let old = Tree::new();
    let new = tree(
        &[("file1.txt", b"Content of file 1".to_vec()), ("sub/file2.txt", b"Content of file 2".to_vec())],
        &["sub"],
    );
    let (manifest, s) = create(&old, &new);
    assert_eq!(s, summary(1, 2, 0, 0, 0));
    assert!(manifest
        .operations
        .iter()
        .all(|op| matches!(op, PatchOp::CreateDir { .. } | PatchOp::AddFile { .. })));
    let mut target = old.clone();
    apply(&mut target, manifest).unwrap();
    assert_eq!(target, new);
}

#[test]
fn populated_to_empty_removes_everything() {
    let old = tree(
        &[("top.txt", b"x".to_vec()), ("a/b/c.txt", b"y".to_vec()), ("a/d.txt", b"z".to_vec())],
        &["a", "a/b"],
    );
    let new = Tree::new();
    let (manifest, s) = create(&old, &new);
    assert_eq!(s, summary(0, 0, 0, 3, 2));
    assert!(manifest
        .operations
        .iter()
        .all(|op| matches!(op, PatchOp::DeleteFile { .. } | PatchOp::DeleteDir { .. })));
    let mut target = old.clone();
    apply(&mut target, manifest).unwrap();
    assert!(target.is_empty());
}

#[test]
fn kind_change_is_delete_plus_add() {
    let old = tree(&[("x", b"was a file".to_vec()), ("y/inner.txt", b"in a dir".to_vec())], &["y"]);
    let new = tree(&[("y", b"now a file".to_vec()), ("x/inner.txt", b"new".to_vec())], &["x"]);
    let (manifest, s) = create(&old, &new);
    assert_eq!(s, summary(1, 2, 0, 2, 1));
    let mut target = old.clone();
    apply(&mut target, manifest).unwrap();
    assert_eq!(target, new);
}

#[test]
fn file_to_dir_alone_is_counted() {
    let old = tree(&[("x", b"file".to_vec())], &[]);
    let new = tree(&[], &["x"]);
    let (_, s) = create(&old, &new);
    assert_eq!(s, summary(1, 0, 0, 1, 0));
}

#[test]
fn changed_tree_has_nonzero_summary() {
    let old = tree(&[("a.txt", b"one".to_vec())], &[]);
    let new = tree(&[("a.txt", b"two".to_vec())], &[]);
    let (_, s) = create(&old, &new);
    assert!(s.files_added + s.files_modified + s.files_deleted + s.dirs_created + s.dirs_deleted > 0);
    assert_eq!(s, summary(0, 0, 1, 0, 0));
}

#[test]
fn manifest_is_ordered_by_phase() {
    let old = tree(&[("gone.txt", b"g".to_vec()), ("keep.txt", b"k1".to_vec())], &["x", "x/y"]);
    let new = tree(&[("new.txt", b"n".to_vec()), ("keep.txt", b"k2".to_vec())], &["p", "p/q", "b"]);
    let (manifest, _) = create(&old, &new);
    let kinds: Vec<u8> = manifest
        .operations
        .iter()
        .map(|op| match op {
            PatchOp::CreateDir { .. } => 0,
            PatchOp::AddFile { .. } => 1,
            PatchOp::ModifyFile { .. } => 2,
            PatchOp::DeleteFile { .. } => 3,
            PatchOp::DeleteDir { .. } => 4,
        })
        .collect();
    assert_eq!(kinds, vec![0, 0, 0, 1, 2, 3, 4, 4]);
    let paths: Vec<&str> = manifest.operations.iter().map(|op| op.path().as_str()).collect();
    assert_eq!(paths, vec!["b", "p", "p/q", "new.txt", "keep.txt", "gone.txt", "x/y", "x"]);
}

#[test]
fn identical_file_gives_no_modify() {
    assert!(modify_file_op("a.bin".to_string(), b"same bytes", b"same bytes").is_none());
}

#[test]
fn incompressible_file_is_carried_whole() {
    let old = vec![1u8; 9000];
    let mut new = old.clone();
    new[5000] = 2;
    let op = modify_file_op("media/Clip.MP4".to_string(), &old, &new).unwrap();
    match op {
        PatchOp::ModifyFile { path, diff_chunks, new_blake3_hash } => {
            assert_eq!(path, "media/Clip.MP4");
            assert_eq!(diff_chunks.len(), 1);
            assert!(matches!(&diff_chunks[0], DiffChunk::Insert { data } if *data == new));
            assert_eq!(new_blake3_hash, hash_bytes(&new));
        }
        _ => panic!("expected a ModifyFile"),
    }
}

#[test]
fn compressible_file_is_diffed() {
    let old: Vec<u8> = (0..9000u32).map(|i| (i % 97) as u8).collect();
    let mut new = old.clone();
    new[8500] ^= 0xFF;
    let op = modify_file_op("notes.txt".to_string(), &old, &new).unwrap();
    match op {
        PatchOp::ModifyFile { diff_chunks, .. } => {
            assert!(diff_chunks.iter().any(|c| matches!(c, DiffChunk::Copy { .. })));
            assert_eq!(patcher::binary_patch::apply_diff(&old, &diff_chunks), new);
        }
        _ => panic!("expected a ModifyFile"),
    }
}

#[test]
fn incompressible_extensions() {
    assert!(is_incompressible(&"photo.JPG".to_string()));
    assert!(is_incompressible(&"a/b.tar.gz".to_string()));
    assert!(is_incompressible(&"font.woff2".to_string()));
    assert!(is_incompressible(&"doc.Pdf".to_string()));
    assert!(!is_incompressible(&".zip".to_string()));
    assert!(!is_incompressible(&"dir/.zip".to_string()));
    assert!(!is_incompressible(&"archive.zip/inner".to_string()));
    assert!(!is_incompressible(&"notes.txt".to_string()));
    assert!(!is_incompressible(&"zip".to_string()));
}

#[test]
fn add_op_carries_hash_of_data() {
    let op = add_file_op("f.txt".to_string(), b"abc".to_vec());
    match op {
        PatchOp::AddFile { path, data, blake3_hash } => {
            assert_eq!(path, "f.txt");
            assert_eq!(data, b"abc".to_vec());
            assert_eq!(blake3_hash, *blake3::hash(b"abc").as_bytes());
        }
        _ => panic!("expected an AddFile"),
    }
}

#[test]
fn hash_of_empty_input_is_blake3() {
    let h = hash_bytes(b"");
    assert_eq!(h[0], 0xaf);
    assert_eq!(h[1], 0x13);
    assert_eq!(h[31], 0x62);
}

#[test]
fn content_check_detects_mismatch() {
    let h = hash_bytes(b"payload");
    assert_eq!(check_content(b"payload", &h), Ok(()));
    assert_eq!(check_content(b"payloaD", &h), Err(PatchError::HashMismatch));
}

#[test]
fn patch_file_checks_target_hash() {
    let old = b"0123456789".to_vec();
    let chunks = vec![DiffChunk::Copy { offset: 5, length: 5 }, DiffChunk::Insert { data: b"!".to_vec() }];
    let good = hash_bytes(b"56789!");
    assert_eq!(patch_file(&old, &chunks, &good), Ok(b"56789!".to_vec()));
    let bad = hash_bytes(b"other");
    assert_eq!(patch_file(&old, &chunks, &bad), Err(PatchError::HashMismatch));
    let out = vec![DiffChunk::Copy { offset: 6, length: 5 }];
    assert_eq!(patch_file(&old, &out, &good), Err(PatchError::CopyOutOfRange));
}

#[test]
fn bad_magic_is_rejected() {
    assert_eq!(patch_payload(b"PATCHV02rest"), Err(PatchError::BadMagic));
    assert_eq!(patch_payload(b"PATCH"), Err(PatchError::BadMagic));
    assert_eq!(patch_payload(b"PATCHV01rest"), Ok(&b"rest"[..]));
}

#[test]
fn framed_patch_starts_with_magic() {
    let framed = frame_patch(b"xyz");
    assert_eq!(framed, b"PATCHV01xyz".to_vec());
}

#[test]
fn sealed_patch_decompresses_to_encoded_manifest() {
    let encoded: Vec<u8> = (0..2000u32).map(|i| (i % 13) as u8).collect();
    let sealed = seal_patch(&encoded).unwrap();
    assert_eq!(&sealed[..8], b"PATCHV01");
    let payload = patch_payload(&sealed).unwrap();
    assert_ne!(payload, &encoded[..]);
    let back = zstd::bulk::decompress(payload, 1 << 20).unwrap();
    assert_eq!(back, encoded);
}

#[test]
fn unsupported_version_is_rejected() {
    let manifest = PatchManifest { version: 2, operations: vec![PatchOp::CreateDir { path: "d".to_string() }] };
    assert!(matches!(plan_apply(manifest), Err(PatchError::UnsupportedVersion { found: 2 })));
}

#[test]
fn invalid_paths_are_rejected() {
    for bad in ["../etc", "/abs", "a//b", "a/./b", "a/", "", "a/.."] {
        let manifest = PatchManifest {
            version: FORMAT_VERSION,
            operations: vec![PatchOp::DeleteFile { path: bad.to_string() }],
        };
        assert!(matches!(plan_apply(manifest), Err(PatchError::InvalidPath)), "{}", bad);
    }
}

#[test]
fn wire_path_convention() {
    assert!(is_valid_wire_path(b"a"));
    assert!(is_valid_wire_path(b"a/b.c/.d/...e/..."));
    assert!(!is_valid_wire_path(b"."));
    assert!(!is_valid_wire_path(b"x/../y"));
    assert!(!is_valid_wire_path(b"x\x2f"));
}

#[test]
fn plan_groups_and_reduces_deletions() {
    let ops = vec![
        PatchOp::CreateDir { path: "n".to_string() },
        PatchOp::AddFile { path: "n/f".to_string(), data: vec![1], blake3_hash: hash_bytes(&[1]) },
        PatchOp::DeleteFile { path: "keep/old.txt".to_string() },
        PatchOp::DeleteFile { path: "gone/sub/x.txt".to_string() },
        PatchOp::DeleteDir { path: "gone/sub".to_string() },
        PatchOp::DeleteDir { path: "gone".to_string() },
    ];
    let plan = plan_apply(PatchManifest { version: FORMAT_VERSION, operations: ops }).unwrap();
    assert_eq!(plan.create_dirs, vec!["n".to_string()]);
    assert_eq!(plan.add_files.len(), 1);
    assert!(plan.modify_files.is_empty());
    assert_eq!(plan.root_deleted_dirs, vec!["gone".to_string()]);
    assert_eq!(plan.orphan_delete_files, vec!["keep/old.txt".to_string()]);
    assert_eq!(plan.summary, summary(1, 1, 0, 2, 2));
}

#[test]
fn deletion_roots_and_orphans() {
    let dirs = vec!["a/b".to_string(), "a".to_string(), "c/d".to_string(), "ab".to_string()];
    assert_eq!(root_deleted_dirs(&dirs), vec!["a".to_string(), "c/d".to_string(), "ab".to_string()]);
    let files = vec!["a/b/x".to_string(), "abc/y".to_string(), "c/z".to_string(), "c/d/e/f".to_string()];
    assert_eq!(orphan_delete_files(&files, &dirs), vec!["abc/y".to_string(), "c/z".to_string()]);
}

#[test]
fn directory_sorting() {
    let mut dirs = vec!["b".to_string(), "a/b".to_string(), "a".to_string()];
    sort_dirs_parent_first(&mut dirs);
    assert_eq!(dirs, vec!["a".to_string(), "a/b".to_string(), "b".to_string()]);
    sort_dirs_deepest_first(&mut dirs);
    assert_eq!(dirs, vec!["b".to_string(), "a/b".to_string(), "a".to_string()]);
}

#[test]
fn path_set_is_distinct_and_sorted() {
    let e = |p: &str| DirEntry { relative_path: p.to_string(), kind: EntryKind::File, size: 0 };
    let entries = vec![e("b"), e("a/c"), e("b"), e("a")];
    assert_eq!(path_set(&entries), vec!["a".to_string(), "a/c".to_string(), "b".to_string()]);
}

#[test]
fn path_set_lists_paths() {
    let t = tree(&[("x/y", vec![])], &["x"]);
    let e = entries(&t);
    assert_eq!(path_set(&e), vec!["x".to_string(), "x/y".to_string()]);
}
