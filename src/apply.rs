//! Patch application: checking the manifest, grouping its operations, planning the bulk
//! deletions, and rebuilding and checking file contents.
use crate::binary_patch::{apply_chunks, chunks_in_range, try_apply_diff};
use crate::create::op_paths;
use crate::patch_format::{ApplySummary, DiffChunk, PatchError, PatchManifest, PatchOp, FORMAT_VERSION};
use crate::util::{
    blake3_of,
    hash_bytes,
    contains_path_bytes,
    index_strings,
    is_ancestor_path,
    is_parent_path,
    key_index_of,
    string_keys,
    is_valid_wire_path,
    path_as_bytes,
    path_bytes,
    path_views,
    same_bytes,
    valid_wire_path,
};
use std::collections::HashMap;
use vstd::prelude::*;

verus! {

/// Holds of the operations of phase `phase`.
pub open spec fn in_phase(phase: int) -> spec_fn(PatchOp) -> bool {
    |o: PatchOp| o.phase() == phase
}

/// The operations of `ops` of phase `phase`, in order.
pub open spec fn ops_of_phase(ops: Seq<PatchOp>, phase: int) -> Seq<PatchOp> {
    ops.filter(in_phase(phase))
}

/// Every operation's path follows the wire convention.
pub open spec fn all_paths_valid(ops: Seq<PatchOp>) -> bool {
    forall|k: int| 0 <= k < ops.len() ==> valid_wire_path(path_bytes(#[trigger] ops[k].spec_path()))
}

/// The directory right above `d` is among `dirs`.
pub open spec fn has_parent_in(dirs: Seq<Seq<char>>, d: Seq<char>) -> bool {
    exists|k: int| 0 <= k < dirs.len() && is_parent_path(path_bytes(#[trigger] dirs[k]), path_bytes(d))
}

/// Some directory above `f` is among `dirs`.
pub open spec fn has_ancestor_in(dirs: Seq<Seq<char>>, f: Seq<char>) -> bool {
    exists|k: int| 0 <= k < dirs.len() && is_ancestor_path(path_bytes(#[trigger] dirs[k]), path_bytes(f))
}

/// The deleted directories whose parent survives: removing each recursively removes all.
pub open spec fn root_dirs(dirs: Seq<Seq<char>>) -> Seq<Seq<char>> {
    dirs.filter(|d: Seq<char>| !has_parent_in(dirs, d))
}

/// The deleted files that no deleted directory contains.
pub open spec fn orphan_files(files: Seq<Seq<char>>, dirs: Seq<Seq<char>>) -> Seq<Seq<char>> {
    files.filter(|f: Seq<char>| !has_ancestor_in(dirs, f))
}

/// What the applier does with a manifest, grouped by phase.
pub struct ApplyPlan {
    /// Directories to create, parent first.
    pub create_dirs: Vec<String>,
    /// The `AddFile` operations.
    pub add_files: Vec<PatchOp>,
    /// The `ModifyFile` operations.
    pub modify_files: Vec<PatchOp>,
    /// Deleted directories whose parent is not deleted; each goes with its whole subtree.
    pub root_deleted_dirs: Vec<String>,
    /// Deleted files outside every deleted directory.
    pub orphan_delete_files: Vec<String>,
    /// How many operations of each kind the manifest holds.
    pub summary: ApplySummary,
}

proof fn lemma_filter_step<A>(s: Seq<A>, i: int, pred: spec_fn(A) -> bool)
    requires
        0 <= i < s.len(),
    ensures
        s.subrange(0, i + 1).filter(pred) == if pred(s[i]) {
            s.subrange(0, i).filter(pred).push(s[i])
        } else {
            s.subrange(0, i).filter(pred)
        },
{
    reveal(Seq::filter);
    assert(s.subrange(0, i + 1).drop_last() =~= s.subrange(0, i));
}

proof fn lemma_filter_all<A>(s: Seq<A>, pred: spec_fn(A) -> bool)
    ensures
        s.subrange(0, s.len() as int).filter(pred) == s.filter(pred),
{
    assert(s.subrange(0, s.len() as int) =~= s);
}

/// Whether the parent of `d` is among `dirs`.
fn has_parent_among(dirs: &Vec<String>, index: &HashMap<u32, Vec<usize>>, d: &String) -> (r: bool)
    requires
        key_index_of(index@, string_keys(dirs@)),
    ensures
        r == has_parent_in(path_views(dirs@), d@),
{
    let db = path_as_bytes(d);
    let mut k: usize = db.len();
    while k > 0
        invariant
            k <= db@.len(),
            db@ == path_bytes(d@),
            key_index_of(index@, string_keys(dirs@)),
            forall|j: int| k <= j < db@.len() ==> db@[j] != 0x2f,
        decreases k,
    {
        if db[k - 1] == 0x2f {
            let s = k - 1;
            let prefix = &db[0..s];
            let r = contains_path_bytes(dirs, index, prefix);
            proof {
                assert forall|x: Seq<u8>| #[trigger] is_parent_path(x, db@) implies x == prefix@ by {
                    if x.len() < s {
                        assert(db@[s as int] == 0x2f);
                    } else if x.len() > s {
                        assert(db@[x.len() as int] == 0x2f);
                    }
                }
                assert(is_parent_path(prefix@, db@)) by {
                    assert(db@.subrange(0, s as int) =~= prefix@);
                }
                if r {
                    let m = choose|m: int| 0 <= m < dirs@.len() && path_bytes(#[trigger] dirs@[m]@) == prefix@;
                    assert(path_views(dirs@)[m] == dirs@[m]@);
                    assert(is_parent_path(path_bytes(path_views(dirs@)[m]), path_bytes(d@)));
                } else {
                    assert forall|m: int| 0 <= m < path_views(dirs@).len() implies !is_parent_path(
                        path_bytes(#[trigger] path_views(dirs@)[m]),
                        path_bytes(d@),
                    ) by {
                        assert(path_views(dirs@)[m] == dirs@[m]@);
                    }
                }
            }
            return r;
        }
        k = k - 1;
    }
    proof {
        assert forall|m: int| 0 <= m < path_views(dirs@).len() implies !is_parent_path(
            path_bytes(#[trigger] path_views(dirs@)[m]),
            path_bytes(d@),
        ) by {
            let x = path_bytes(path_views(dirs@)[m]);
            if x.len() < db@.len() {
                assert(db@[x.len() as int] != 0x2f);
            }
        }
    }
    false
}

/// Whether a directory above `f` is among `dirs`.
fn has_ancestor_among(dirs: &Vec<String>, index: &HashMap<u32, Vec<usize>>, f: &String) -> (r: bool)
    requires
        key_index_of(index@, string_keys(dirs@)),
    ensures
        r == has_ancestor_in(path_views(dirs@), f@),
{
    let fb = path_as_bytes(f);
    let mut k: usize = 0;
    while k < fb.len()
        invariant
            k <= fb@.len(),
            fb@ == path_bytes(f@),
            key_index_of(index@, string_keys(dirs@)),
            forall|m: int|
                0 <= m < dirs@.len() && path_bytes(#[trigger] dirs@[m]@).len() < k ==> !is_ancestor_path(
                    path_bytes(dirs@[m]@),
                    fb@,
                ),
        decreases fb@.len() - k,
    {
        if fb[k] == 0x2f {
            let prefix = &fb[0..k];
            let r = contains_path_bytes(dirs, index, prefix);
            if r {
                proof {
                    let m = choose|m: int| 0 <= m < dirs@.len() && path_bytes(#[trigger] dirs@[m]@) == prefix@;
                    assert(fb@.subrange(0, k as int) =~= prefix@);
                    assert(path_views(dirs@)[m] == dirs@[m]@);
                    assert(is_ancestor_path(path_bytes(path_views(dirs@)[m]), path_bytes(f@)));
                }
                return true;
            }
            proof {
                assert forall|m: int|
                    0 <= m < dirs@.len() && path_bytes(#[trigger] dirs@[m]@).len() < k + 1 implies !is_ancestor_path(
                    path_bytes(dirs@[m]@),
                    fb@,
                ) by {
                    if path_bytes(dirs@[m]@).len() == k && is_ancestor_path(path_bytes(dirs@[m]@), fb@) {
                        assert(fb@.subrange(0, k as int) =~= prefix@);
                    }
                }
            }
        } else {
            proof {
                assert forall|m: int|
                    0 <= m < dirs@.len() && path_bytes(#[trigger] dirs@[m]@).len() < k + 1 implies !is_ancestor_path(
                    path_bytes(dirs@[m]@),
                    fb@,
                ) by {
                    if path_bytes(dirs@[m]@).len() == k {
                        assert(fb@[k as int] != 0x2f);
                    }
                }
            }
        }
        k = k + 1;
    }
    proof {
        assert forall|m: int| 0 <= m < path_views(dirs@).len() implies !is_ancestor_path(
            path_bytes(#[trigger] path_views(dirs@)[m]),
            path_bytes(f@),
        ) by {
            assert(path_views(dirs@)[m] == dirs@[m]@);
        }
    }
    false
}

/// The deleted directories whose parent is not deleted too, in their order.
pub fn root_deleted_dirs(dirs: &Vec<String>) -> (r: Vec<String>)
    ensures
        path_views(r@) == root_dirs(path_views(dirs@)),
{
    let ghost dv = path_views(dirs@);
    let ghost pred = |d: Seq<char>| !has_parent_in(dv, d);
    let index = index_strings(dirs);
    let mut r: Vec<String> = Vec::new();
    let mut i: usize = 0;
    while i < dirs.len()
        invariant
            i <= dirs@.len(),
            dv == path_views(dirs@),
            key_index_of(index@, string_keys(dirs@)),
            pred == (|d: Seq<char>| !has_parent_in(dv, d)),
            path_views(r@) == dv.subrange(0, i as int).filter(pred),
        decreases dirs@.len() - i,
    {
        proof {
            lemma_filter_step(dv, i as int, pred);
        }
        let ghost before = r@;
        if !has_parent_among(dirs, &index, &dirs[i]) {
            r.push(dirs[i].clone());
            proof {
                assert(path_views(r@) =~= path_views(before).push(dv[i as int]));
            }
        }
        i = i + 1;
    }
    proof {
        lemma_filter_all(dv, pred);
    }
    r
}

/// The deleted files that lie outside every deleted directory, in their order.
pub fn orphan_delete_files(files: &Vec<String>, dirs: &Vec<String>) -> (r: Vec<String>)
    ensures
        path_views(r@) == orphan_files(path_views(files@), path_views(dirs@)),
{
    let ghost fv = path_views(files@);
    let ghost dv = path_views(dirs@);
    let ghost pred = |f: Seq<char>| !has_ancestor_in(dv, f);
    let index = index_strings(dirs);
    let mut r: Vec<String> = Vec::new();
    let mut i: usize = 0;
    while i < files.len()
        invariant
            i <= files@.len(),
            fv == path_views(files@),
            dv == path_views(dirs@),
            key_index_of(index@, string_keys(dirs@)),
            pred == (|f: Seq<char>| !has_ancestor_in(dv, f)),
            path_views(r@) == fv.subrange(0, i as int).filter(pred),
        decreases files@.len() - i,
    {
        proof {
            lemma_filter_step(fv, i as int, pred);
        }
        let ghost before = r@;
        if !has_ancestor_among(dirs, &index, &files[i]) {
            r.push(files[i].clone());
            proof {
                assert(path_views(r@) =~= path_views(before).push(fv[i as int]));
            }
        }
        i = i + 1;
    }
    proof {
        lemma_filter_all(fv, pred);
    }
    r
}

impl ApplyPlan {
    /// The plan for the operations `ops`: grouped by phase, counted, with the deletions
    /// reduced to root directories and orphan files.
    pub open spec fn is_plan_of(&self, ops: Seq<PatchOp>) -> bool {
        &&& path_views(self.create_dirs@) == op_paths(ops_of_phase(ops, 0))
        &&& self.add_files@ == ops_of_phase(ops, 1)
        &&& self.modify_files@ == ops_of_phase(ops, 2)
        &&& path_views(self.root_deleted_dirs@) == root_dirs(op_paths(ops_of_phase(ops, 4)))
        &&& path_views(self.orphan_delete_files@) == orphan_files(
            op_paths(ops_of_phase(ops, 3)),
            op_paths(ops_of_phase(ops, 4)),
        )
        &&& self.summary.dirs_created == ops_of_phase(ops, 0).len()
        &&& self.summary.files_added == ops_of_phase(ops, 1).len()
        &&& self.summary.files_modified == ops_of_phase(ops, 2).len()
        &&& self.summary.files_deleted == ops_of_phase(ops, 3).len()
        &&& self.summary.dirs_deleted == ops_of_phase(ops, 4).len()
    }
}

/// Whether every operation's path follows the wire convention.
fn paths_valid(ops: &Vec<PatchOp>) -> (r: bool)
    ensures
        r == all_paths_valid(ops@),
{
    let mut k: usize = 0;
    while k < ops.len()
        invariant
            k <= ops@.len(),
            forall|j: int| 0 <= j < k ==> valid_wire_path(path_bytes(#[trigger] ops@[j].spec_path())),
        decreases ops@.len() - k,
    {
        let op = &ops[k];
        if !is_valid_wire_path(path_as_bytes(op.path())) {
            proof {
                assert(!valid_wire_path(path_bytes(ops@[k as int].spec_path())));
            }
            return false;
        }
        k = k + 1;
    }
    true
}

/// Checks a decoded manifest and plans its application.
///
/// Nothing is planned, and so nothing is touched, unless the version is `FORMAT_VERSION` and
/// every path follows the wire convention.
pub fn plan_apply(manifest: PatchManifest) -> (r: Result<ApplyPlan, PatchError>)
    ensures
        manifest.version != FORMAT_VERSION <==> r == Err::<ApplyPlan, PatchError>(
            PatchError::UnsupportedVersion { found: manifest.version },
        ),
        manifest.version == FORMAT_VERSION && !all_paths_valid(manifest.operations@) <==> r == Err::<
            ApplyPlan,
            PatchError,
        >(PatchError::InvalidPath),
        manifest.version == FORMAT_VERSION && all_paths_valid(manifest.operations@) ==> r is Ok,
        r matches Ok(plan) ==> plan.is_plan_of(manifest.operations@),
{
    if manifest.version != FORMAT_VERSION {
        return Err(PatchError::UnsupportedVersion { found: manifest.version });
    }
    if !paths_valid(&manifest.operations) {
        return Err(PatchError::InvalidPath);
    }
    let ghost all = manifest.operations@;
    let n = manifest.operations.len();
    let mut rest = manifest.operations;
    let mut rev: Vec<PatchOp> = Vec::with_capacity(n);
    while rest.len() > 0
        invariant
            rest@.len() + rev@.len() == n,
            n == all.len(),
            rest@ == all.subrange(0, rest@.len() as int),
            forall|j: int| 0 <= j < rev@.len() ==> #[trigger] rev@[j] == all[n - 1 - j],
        decreases rest@.len(),
    {
        let op = rest.pop().unwrap();
        rev.push(op);
    }
    let mut create_dirs: Vec<String> = Vec::new();
    let mut add_files: Vec<PatchOp> = Vec::new();
    let mut modify_files: Vec<PatchOp> = Vec::new();
    let mut delete_files: Vec<String> = Vec::new();
    let mut delete_dirs: Vec<String> = Vec::new();
    let mut i: usize = 0;
    while i < n
        invariant
            i <= n,
            n == all.len(),
            rev@.len() == n - i,
            forall|j: int| 0 <= j < rev@.len() ==> #[trigger] rev@[j] == all[n - 1 - j],
            path_views(create_dirs@) == op_paths(all.subrange(0, i as int).filter(in_phase(0))),
            add_files@ == all.subrange(0, i as int).filter(in_phase(1)),
            modify_files@ == all.subrange(0, i as int).filter(in_phase(2)),
            path_views(delete_files@) == op_paths(all.subrange(0, i as int).filter(in_phase(3))),
            path_views(delete_dirs@) == op_paths(all.subrange(0, i as int).filter(in_phase(4))),
        decreases n - i,
    {
        let op = rev.pop().unwrap();
        proof {
            assert(op == all[i as int]);
            lemma_filter_step(all, i as int, in_phase(0));
            lemma_filter_step(all, i as int, in_phase(1));
            lemma_filter_step(all, i as int, in_phase(2));
            lemma_filter_step(all, i as int, in_phase(3));
            lemma_filter_step(all, i as int, in_phase(4));
        }
        let ghost c0 = create_dirs@;
        let ghost f0 = delete_files@;
        let ghost d0 = delete_dirs@;
        let ghost pre = all.subrange(0, i as int);
        match op {
            PatchOp::CreateDir { path } => {
                create_dirs.push(path);
                proof {
                    assert(path_views(create_dirs@) =~= path_views(c0).push(op.spec_path()));
                    assert(op_paths(pre.filter(in_phase(0)).push(op)) =~= op_paths(pre.filter(in_phase(0))).push(op.spec_path()));
                }
            },
            PatchOp::AddFile { .. } => {
                add_files.push(op);
            },
            PatchOp::ModifyFile { .. } => {
                modify_files.push(op);
            },
            PatchOp::DeleteFile { path } => {
                delete_files.push(path);
                proof {
                    assert(path_views(delete_files@) =~= path_views(f0).push(op.spec_path()));
                    assert(op_paths(pre.filter(in_phase(3)).push(op)) =~= op_paths(pre.filter(in_phase(3))).push(op.spec_path()));
                }
            },
            PatchOp::DeleteDir { path } => {
                delete_dirs.push(path);
                proof {
                    assert(path_views(delete_dirs@) =~= path_views(d0).push(op.spec_path()));
                    assert(op_paths(pre.filter(in_phase(4)).push(op)) =~= op_paths(pre.filter(in_phase(4))).push(op.spec_path()));
                }
            },
        }
        i = i + 1;
    }
    proof {
        assert(all.subrange(0, n as int) =~= all);
    }
    let root_deleted_dirs = root_deleted_dirs(&delete_dirs);
    let orphan_delete_files = orphan_delete_files(&delete_files, &delete_dirs);
    proof {
        assert(path_views(create_dirs@).len() == create_dirs@.len());
        assert(op_paths(ops_of_phase(all, 0)).len() == ops_of_phase(all, 0).len());
        assert(path_views(delete_files@).len() == delete_files@.len());
        assert(op_paths(ops_of_phase(all, 3)).len() == ops_of_phase(all, 3).len());
        assert(op_paths(ops_of_phase(all, 4)).len() == ops_of_phase(all, 4).len());
    }
    let summary = ApplySummary {
        dirs_created: create_dirs.len(),
        files_added: add_files.len(),
        files_modified: modify_files.len(),
        files_deleted: delete_files.len(),
        dirs_deleted: delete_dirs.len(),
    };
    Ok(ApplyPlan { create_dirs, add_files, modify_files, root_deleted_dirs, orphan_delete_files, summary })
}

/// Checks written or received bytes against the content hash that their operation names.
pub fn check_content(data: &[u8], expected: &[u8; 32]) -> (r: Result<(), PatchError>)
    ensures
        r is Ok <==> blake3_of(data@) == expected@,
        r is Err ==> r == Err::<(), PatchError>(PatchError::HashMismatch),
{
    let actual = hash_bytes(data);
    if same_bytes(&actual, expected) {
        Ok(())
    } else {
        Err(PatchError::HashMismatch)
    }
}

/// Rebuilds a modified file from its current bytes and checks the result against the target
/// hash before anything is written.
pub fn patch_file(old: &[u8], chunks: &[DiffChunk], expected: &[u8; 32]) -> (r: Result<Vec<u8>, PatchError>)
    ensures
        !chunks_in_range(old@.len() as int, chunks@) ==> r == Err::<Vec<u8>, PatchError>(
            PatchError::CopyOutOfRange,
        ),
        chunks_in_range(old@.len() as int, chunks@) && apply_chunks(old@, chunks@).len() > usize::MAX ==> r
            == Err::<Vec<u8>, PatchError>(PatchError::OutputTooLarge),
        chunks_in_range(old@.len() as int, chunks@) && apply_chunks(old@, chunks@).len() <= usize::MAX ==> (
        if blake3_of(apply_chunks(old@, chunks@)) == expected@ {
            r matches Ok(v) && v@ == apply_chunks(old@, chunks@)
        } else {
            r == Err::<Vec<u8>, PatchError>(PatchError::HashMismatch)
        }),
{
    let rebuilt = match try_apply_diff(old, chunks) {
        Ok(v) => v,
        Err(e) => {
            return Err(e);
        },
    };
    match check_content(rebuilt.as_slice(), expected) {
        Ok(()) => Ok(rebuilt),
        Err(e) => Err(e),
    }
}

/// `p` is removed with one of `roots`: it is that directory or lies below it.
pub open spec fn removed_with(roots: Seq<Seq<char>>, p: Seq<char>) -> bool {
    exists|k: int|
        0 <= k < roots.len() && (path_bytes(#[trigger] roots[k]) == path_bytes(p) || is_ancestor_path(
            path_bytes(roots[k]),
            path_bytes(p),
        ))
}

proof fn lemma_ancestor_of_parent(r: Seq<u8>, p: Seq<u8>, d: Seq<u8>)
    requires
        path_bytes_ancestor_or_same(r, p),
        is_parent_path(p, d),
    ensures
        is_ancestor_path(r, d),
{
    if r != p {
        assert(d.subrange(0, r.len() as int) =~= p.subrange(0, r.len() as int));
        assert(d[r.len() as int] == p[r.len() as int]);
    }
}

/// `r` is `p` or a directory above it.
pub open spec fn path_bytes_ancestor_or_same(r: Seq<u8>, p: Seq<u8>) -> bool {
    r == p || is_ancestor_path(r, p)
}

proof fn lemma_deleted_dir_removed(dirs: Seq<Seq<char>>, i: int)
    requires
        0 <= i < dirs.len(),
    ensures
        removed_with(root_dirs(dirs), dirs[i]),
    decreases path_bytes(dirs[i]).len(),
{
    let d = dirs[i];
    let roots = root_dirs(dirs);
    let pred = |x: Seq<char>| !has_parent_in(dirs, x);
    if !has_parent_in(dirs, d) {
        dirs.lemma_filter_contains(pred, i);
        let k = choose|k: int| 0 <= k < roots.len() && roots[k] == d;
        assert(path_bytes(roots[k]) == path_bytes(d));
    } else {
        let j = choose|j: int| 0 <= j < dirs.len() && is_parent_path(path_bytes(#[trigger] dirs[j]), path_bytes(d));
        lemma_deleted_dir_removed(dirs, j);
        let k = choose|k: int|
            0 <= k < roots.len() && (path_bytes(#[trigger] roots[k]) == path_bytes(dirs[j]) || is_ancestor_path(
                path_bytes(roots[k]),
                path_bytes(dirs[j]),
            ));
        lemma_ancestor_of_parent(path_bytes(roots[k]), path_bytes(dirs[j]), path_bytes(d));
    }
}

/// Bulk deletion misses nothing: removing each root deleted directory with its whole subtree,
/// then each orphan file, removes every deleted directory and every deleted file.
pub proof fn lemma_bulk_deletion_complete(dirs: Seq<Seq<char>>, files: Seq<Seq<char>>)
    ensures
        forall|i: int| 0 <= i < dirs.len() ==> removed_with(root_dirs(dirs), #[trigger] dirs[i]),
        forall|i: int|
            0 <= i < files.len() ==> removed_with(root_dirs(dirs), #[trigger] files[i]) || orphan_files(
                files,
                dirs,
            ).contains(files[i]),
{
    assert forall|i: int| 0 <= i < dirs.len() implies removed_with(root_dirs(dirs), #[trigger] dirs[i]) by {
        lemma_deleted_dir_removed(dirs, i);
    }
    assert forall|i: int|
        0 <= i < files.len() implies removed_with(root_dirs(dirs), #[trigger] files[i]) || orphan_files(
            files,
            dirs,
        ).contains(files[i]) by {
        let f = files[i];
        if has_ancestor_in(dirs, f) {
            let j = choose|j: int| 0 <= j < dirs.len() && is_ancestor_path(path_bytes(#[trigger] dirs[j]), path_bytes(f));
            lemma_deleted_dir_removed(dirs, j);
            let roots = root_dirs(dirs);
            let k = choose|k: int|
                0 <= k < roots.len() && (path_bytes(#[trigger] roots[k]) == path_bytes(dirs[j]) || is_ancestor_path(
                    path_bytes(roots[k]),
                    path_bytes(dirs[j]),
                ));
            let r = path_bytes(roots[k]);
            let a = path_bytes(dirs[j]);
            let fb = path_bytes(f);
            if r != a {
                assert(fb.subrange(0, r.len() as int) =~= a.subrange(0, r.len() as int));
                assert(fb[r.len() as int] == a[r.len() as int]);
            }
            assert(is_ancestor_path(r, fb));
        } else {
            files.lemma_filter_contains(|x: Seq<char>| !has_ancestor_in(dirs, x), i);
        }
    }
}

/// Bulk deletion spares what survives: where no kept path equals a deleted directory or lies
/// below one, no root deleted directory is a kept path or lies above one.
pub proof fn lemma_bulk_deletion_sound(dirs: Seq<Seq<char>>, kept: Seq<Seq<char>>)
    requires
        forall|i: int, k: int|
            0 <= i < dirs.len() && 0 <= k < kept.len() ==> !path_bytes_ancestor_or_same(
                path_bytes(#[trigger] dirs[i]),
                path_bytes(#[trigger] kept[k]),
            ),
    ensures
        forall|k: int| 0 <= k < kept.len() ==> !removed_with(root_dirs(dirs), #[trigger] kept[k]),
{
    assert forall|k: int| 0 <= k < kept.len() implies !removed_with(root_dirs(dirs), #[trigger] kept[k]) by {
        let roots = root_dirs(dirs);
        if removed_with(roots, kept[k]) {
            let m = choose|m: int|
                0 <= m < roots.len() && (path_bytes(#[trigger] roots[m]) == path_bytes(kept[k]) || is_ancestor_path(
                    path_bytes(roots[m]),
                    path_bytes(kept[k]),
                ));
            assert(roots.contains(roots[m]));
            dirs.lemma_filter_contains_rev(|x: Seq<char>| !has_parent_in(dirs, x), roots[m]);
            let i = choose|i: int| 0 <= i < dirs.len() && dirs[i] == roots[m];
            assert(!path_bytes_ancestor_or_same(path_bytes(dirs[i]), path_bytes(kept[k])));
        }
    }
}

} // verus!
