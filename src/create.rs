//! Patch building: classifying two walks, the per-file operations and the ordered manifest.
use crate::binary_diff::{compute_diff, is_diff_of};
use crate::binary_patch::{apply_chunks, chunks_in_range};
use crate::patch_format::{ApplySummary, DiffChunk, PatchManifest, PatchOp, FORMAT_VERSION};
use crate::util::{
    blake3_of,
    bytes_to_vec,
    hash_bytes,
    path_as_bytes,
    path_bytes,
    path_lt,
    path_views,
    same_bytes,
    valid_wire_path,
    sort_dirs_deepest_first,
    sort_dirs_parent_first,
    entry_keys,
    index_paths,
    key_index_of,
    path_key,
    path_key_of,
    DirEntry,
    EntryKind,
};
use std::collections::HashMap;
use vstd::prelude::*;
use vstd::std_specs::hash::group_hash_axioms;

verus! {

/// Some entry of `entries` has path `p`.
pub open spec fn has_path(entries: Seq<DirEntry>, p: Seq<char>) -> bool {
    exists|i: int| 0 <= i < entries.len() && (#[trigger] entries[i]).relative_path@ == p
}

/// No two entries share a path, as in any directory walk.
pub open spec fn paths_unique(entries: Seq<DirEntry>) -> bool {
    forall|i: int, j: int|
        0 <= i < entries.len() && 0 <= j < entries.len() && i != j ==> (#[trigger] entries[i]).relative_path@
            != (#[trigger] entries[j]).relative_path@
}

/// Some entry of `entries` of kind `kind` has path `p`.
pub open spec fn has_path_of_kind(entries: Seq<DirEntry>, p: Seq<char>, kind: EntryKind) -> bool {
    exists|i: int| 0 <= i < entries.len() && (#[trigger] entries[i]).relative_path@ == p && entries[i].kind == kind
}

/// Entry `i` of `side` has kind `kind`, and `other` has no entry of that kind at its path:
/// the path is missing from `other`, or is there with the other kind.
pub open spec fn only_in(side: Seq<DirEntry>, other: Seq<DirEntry>, i: int, kind: EntryKind) -> bool {
    &&& 0 <= i < side.len()
    &&& side[i].kind == kind
    &&& !has_path_of_kind(other, side[i].relative_path@, kind)
}

/// `old[oi]` and `new[ni]` are files at the same path.
pub open spec fn file_in_both(old: Seq<DirEntry>, new: Seq<DirEntry>, oi: int, ni: int) -> bool {
    &&& 0 <= oi < old.len()
    &&& 0 <= ni < new.len()
    &&& old[oi].kind == EntryKind::File
    &&& new[ni].kind == EntryKind::File
    &&& old[oi].relative_path@ == new[ni].relative_path@
}

/// `v` lists, in walk order and once each, the paths of the entries `i` of `side` for which
/// `only_in(side, other, i, kind)` holds.
pub open spec fn lists_only_in(
    v: Seq<String>,
    side: Seq<DirEntry>,
    other: Seq<DirEntry>,
    kind: EntryKind,
) -> bool {
    exists|idx: Seq<int>|
        {
            &&& #[trigger] idx.len() == v.len()
            &&& forall|k: int| 0 <= k < idx.len() ==> only_in(side, other, #[trigger] idx[k], kind)
                && v[k]@ == side[idx[k]].relative_path@
            &&& forall|k1: int, k2: int| 0 <= k1 < k2 < idx.len() ==> #[trigger] idx[k1] < #[trigger] idx[k2]
            &&& forall|i: int| only_in(side, other, i, kind) ==> #[trigger] idx.contains(i)
        }
}

/// The outcome of comparing two walks.
pub struct Classification {
    /// Directories of the new tree where the old tree has no directory.
    pub dirs_to_create: Vec<String>,
    /// Indices into the new walk of files where the old tree has no file.
    pub files_to_add: Vec<usize>,
    /// (old index, new index) of files present in both trees.
    pub files_maybe_modified: Vec<(usize, usize)>,
    /// Files of the old tree where the new tree has no file.
    pub files_to_delete: Vec<String>,
    /// Directories of the old tree where the new tree has no directory.
    pub dirs_to_delete: Vec<String>,
}

impl Classification {
    /// What `classify(old, new)` returns: every path that one tree holds with a kind that the
    /// other tree does not hold there lands in the list for its side and kind, and every file
    /// in both trees is a candidate for modification. A path that is a file in one tree and a
    /// directory in the other is thus deleted as the one and created or added as the other.
    pub open spec fn is_classification_of(&self, old: Seq<DirEntry>, new: Seq<DirEntry>) -> bool {
        &&& lists_only_in(self.dirs_to_create@, new, old, EntryKind::Dir)
        &&& lists_only_in(self.files_to_delete@, old, new, EntryKind::File)
        &&& lists_only_in(self.dirs_to_delete@, old, new, EntryKind::Dir)
        &&& forall|k: int|
            0 <= k < self.files_to_add@.len() ==> only_in(
                new,
                old,
                #[trigger] self.files_to_add@[k] as int,
                EntryKind::File,
            )
        &&& forall|i: int| only_in(new, old, i, EntryKind::File) ==> #[trigger] self.files_to_add@.contains(i as usize)
        &&& forall|k1: int, k2: int|
            0 <= k1 < k2 < self.files_to_add@.len() ==> #[trigger] self.files_to_add@[k1] < #[trigger] self.files_to_add@[k2]
        &&& forall|k: int|
            0 <= k < self.files_maybe_modified@.len() ==> file_in_both(
                old,
                new,
                (#[trigger] self.files_maybe_modified@[k]).0 as int,
                self.files_maybe_modified@[k].1 as int,
            )
        &&& forall|oi: int, ni: int|
            #[trigger] file_in_both(old, new, oi, ni) ==> self.files_maybe_modified@.contains((oi as usize, ni as usize))
        &&& forall|k1: int, k2: int|
            0 <= k1 < k2 < self.files_maybe_modified@.len() ==> (#[trigger] self.files_maybe_modified@[k1]).1
                < (#[trigger] self.files_maybe_modified@[k2]).1
    }
}

/// The index of the entry with path `p`, if there is one, looked up through `index`.
fn find_path(entries: &Vec<DirEntry>, index: &HashMap<u32, Vec<usize>>, p: &String) -> (r: Option<usize>)
    requires
        key_index_of(index@, entry_keys(entries@)),
    ensures
        r matches Some(i) ==> i < entries@.len() && entries@[i as int].relative_path@ == p@,
        r is None ==> !has_path(entries@, p@),
{
    broadcast use group_hash_axioms;

    let n = entries.len();
    let key = path_key_of(p);
    let bucket = match index.get(&key) {
        Some(b) => b,
        None => {
            proof {
                if has_path(entries@, p@) {
                    let i = choose|i: int| 0 <= i < entries@.len() && (#[trigger] entries@[i]).relative_path@ == p@;
                    assert(entry_keys(entries@)[i] == key);
                }
            }
            return None;
        },
    };
    let mut c: usize = 0;
    while c < bucket.len()
        invariant
            c <= bucket@.len(),
            n == entries@.len(),
            index@.contains_key(key),
            bucket@ == index@[key]@,
            key == path_key(p@),
            key_index_of(index@, entry_keys(entries@)),
            forall|w: int| 0 <= w < c ==> entries@[#[trigger] bucket@[w] as int].relative_path@ != p@,
        decreases bucket@.len() - c,
    {
        let i = bucket[c];
        assert(i == index@[key]@[c as int]);
        if entries[i].relative_path == *p {
            return Some(i);
        }
        c = c + 1;
    }
    proof {
        if has_path(entries@, p@) {
            let i = choose|i: int| 0 <= i < entries@.len() && (#[trigger] entries@[i]).relative_path@ == p@;
            assert(entry_keys(entries@)[i] == key);
            assert(bucket@.contains(i as usize));
            let w = choose|w: int| 0 <= w < bucket@.len() && bucket@[w] == i as usize;
            assert((i as usize) as int == i);
            assert(entries@[bucket@[w] as int].relative_path@ != p@);
        }
    }
    None
}

/// The paths of the entries of `side` of kind `kind` where `other` has no entry of that kind,
/// in walk order.
fn paths_only_in(
    side: &Vec<DirEntry>,
    other: &Vec<DirEntry>,
    other_index: &HashMap<u32, Vec<usize>>,
    kind: EntryKind,
) -> (v: Vec<String>)
    requires
        key_index_of(other_index@, entry_keys(other@)),
        paths_unique(other@),
    ensures
        lists_only_in(v@, side@, other@, kind),
{
    let mut v: Vec<String> = Vec::new();
    let ghost mut idx: Seq<int> = Seq::empty();
    let mut i: usize = 0;
    while i < side.len()
        invariant
            i <= side@.len(),
            key_index_of(other_index@, entry_keys(other@)),
            paths_unique(other@),
            idx.len() == v@.len(),
            forall|k: int|
                0 <= k < idx.len() ==> only_in(side@, other@, #[trigger] idx[k], kind) && v@[k]@
                    == side@[idx[k]].relative_path@ && idx[k] < i,
            forall|k1: int, k2: int| 0 <= k1 < k2 < idx.len() ==> #[trigger] idx[k1] < #[trigger] idx[k2],
            forall|j: int| 0 <= j < i && only_in(side@, other@, j, kind) ==> #[trigger] idx.contains(j),
        decreases side@.len() - i,
    {
        let entry = &side[i];
        let ghost idx0 = idx;
        if entry.kind == kind {
            let found = find_path(other, other_index, &entry.relative_path);
            let missing = match found {
                None => true,
                Some(oi) => other[oi].kind != kind,
            };
            proof {
                if let Some(oi) = found {
                    if other@[oi as int].kind != kind {
                        assert forall|j: int|
                            0 <= j < other@.len() && (#[trigger] other@[j]).relative_path@ == entry.relative_path@
                                implies other@[j].kind != kind by {
                            if j != oi {
                                assert(other@[j].relative_path@ != other@[oi as int].relative_path@);
                            }
                        }
                    }
                } else {
                    assert forall|j: int|
                        0 <= j < other@.len() && (#[trigger] other@[j]).relative_path@ == entry.relative_path@
                            implies false by {
                        assert(has_path(other@, entry.relative_path@));
                    }
                }
            }
            if missing {
                v.push(entry.relative_path.clone());
                proof {
                    idx = idx.push(i as int);
                    assert(idx.last() == i);
                }
            }
        }
        proof {
            assert forall|j: int| 0 <= j < i + 1 && only_in(side@, other@, j, kind) implies #[trigger] idx.contains(j) by {
                if j < i {
                    assert(idx0.contains(j));
                    let k = choose|k: int| 0 <= k < idx0.len() && idx0[k] == j;
                    assert(idx[k] == j);
                } else {
                    assert(idx.last() == j);
                }
            }
        }
        i = i + 1;
    }
    proof {
        assert forall|j: int| only_in(side@, other@, j, kind) implies #[trigger] idx.contains(j) by {
            assert(0 <= j < i);
        }
    }
    v
}

/// Classifies the paths of two walks.
pub fn classify(old_entries: &Vec<DirEntry>, new_entries: &Vec<DirEntry>) -> (c: Classification)
    requires
        paths_unique(old_entries@),
        paths_unique(new_entries@),
    ensures
        c.is_classification_of(old_entries@, new_entries@),
{
    let old = old_entries;
    let new = new_entries;
    let old_index = index_paths(old);
    let new_index = index_paths(new);
    let mut files_to_add: Vec<usize> = Vec::new();
    let mut files_maybe_modified: Vec<(usize, usize)> = Vec::new();
    let mut i: usize = 0;
    while i < new.len()
        invariant
            i <= new@.len(),
            paths_unique(old@),
            key_index_of(old_index@, entry_keys(old@)),
            forall|k: int|
                0 <= k < files_to_add@.len() ==> only_in(new@, old@, #[trigger] files_to_add@[k] as int, EntryKind::File)
                    && files_to_add@[k] < i,
            forall|j: int| 0 <= j < i && only_in(new@, old@, j, EntryKind::File) ==> #[trigger] files_to_add@.contains(j as usize),
            forall|k1: int, k2: int|
                0 <= k1 < k2 < files_to_add@.len() ==> #[trigger] files_to_add@[k1] < #[trigger] files_to_add@[k2],
            forall|k: int|
                0 <= k < files_maybe_modified@.len() ==> file_in_both(
                    old@,
                    new@,
                    (#[trigger] files_maybe_modified@[k]).0 as int,
                    files_maybe_modified@[k].1 as int,
                ) && files_maybe_modified@[k].1 < i,
            forall|oi: int, ni: int|
                #[trigger] file_in_both(old@, new@, oi, ni) && ni < i ==> files_maybe_modified@.contains((oi as usize, ni as usize)),
            forall|k1: int, k2: int|
                0 <= k1 < k2 < files_maybe_modified@.len() ==> (#[trigger] files_maybe_modified@[k1]).1
                    < (#[trigger] files_maybe_modified@[k2]).1,
        decreases new@.len() - i,
    {
        let entry = &new[i];
        let ghost add0 = files_to_add@;
        let ghost mod0 = files_maybe_modified@;
        let found = find_path(old, &old_index, &entry.relative_path);
        match found {
            None => {
                if entry.kind == EntryKind::File {
                    proof {
                        assert forall|j: int|
                            0 <= j < old@.len() && (#[trigger] old@[j]).relative_path@ == entry.relative_path@
                                implies false by {
                            assert(has_path(old@, entry.relative_path@));
                        }
                    }
                    files_to_add.push(i);
                    proof {
                        assert(files_to_add@.last() == i);
                    }
                }
                proof {
                    assert forall|o: int, n: int|
                        #[trigger] file_in_both(old@, new@, o, n) && n < i + 1 implies files_maybe_modified@.contains(
                        (o as usize, n as usize)) by {
                        if n == i {
                            assert(has_path(old@, new@[n].relative_path@));
                        } else {
                            assert(mod0.contains((o as usize, n as usize)));
                            let k = choose|k: int| 0 <= k < mod0.len() && mod0[k] == (o as usize, n as usize);
                            assert(files_maybe_modified@[k] == mod0[k]);
                        }
                    }
                }
            },
            Some(oi) => {
                proof {
                    assert(has_path(old@, entry.relative_path@));
                }
                if old[oi].kind == EntryKind::File && entry.kind == EntryKind::File {
                    files_maybe_modified.push((oi, i));
                    proof {
                        assert(files_maybe_modified@.last() == (oi, i));
                    }
                } else if entry.kind == EntryKind::File {
                    proof {
                        assert forall|j: int|
                            0 <= j < old@.len() && (#[trigger] old@[j]).relative_path@ == entry.relative_path@
                                implies old@[j].kind != EntryKind::File by {
                            if j != oi {
                                assert(old@[j].relative_path@ != old@[oi as int].relative_path@);
                            }
                        }
                    }
                    files_to_add.push(i);
                    proof {
                        assert(files_to_add@.last() == i);
                    }
                }
                proof {
                    assert forall|o: int, n: int|
                        #[trigger] file_in_both(old@, new@, o, n) && n < i + 1 implies files_maybe_modified@.contains(
                        (o as usize, n as usize)) by {
                        if n == i {
                            assert(old@[o].relative_path@ == old@[oi as int].relative_path@);
                            assert(o == oi);
                            assert(files_maybe_modified@.last() == (oi, i));
                        } else {
                            assert(mod0.contains((o as usize, n as usize)));
                            let k = choose|k: int| 0 <= k < mod0.len() && mod0[k] == (o as usize, n as usize);
                            assert(files_maybe_modified@[k] == mod0[k]);
                        }
                    }
                }
            },
        }
        proof {
            assert forall|j: int| 0 <= j < i + 1 && only_in(new@, old@, j, EntryKind::File) implies #[trigger] files_to_add@.contains(j as usize) by {
                if j < i {
                    assert(add0.contains(j as usize));
                    let k = choose|k: int| 0 <= k < add0.len() && add0[k] == j as usize;
                    assert(files_to_add@[k] == j as usize);
                } else {
                    assert(files_to_add@.last() == j as usize);
                }
            }
        }
        i = i + 1;
    }
    let dirs_to_create = paths_only_in(new, old, &old_index, EntryKind::Dir);
    let files_to_delete = paths_only_in(old, new, &new_index, EntryKind::File);
    let dirs_to_delete = paths_only_in(old, new, &new_index, EntryKind::Dir);
    proof {
        assert forall|j: int| only_in(new@, old@, j, EntryKind::File) implies #[trigger] files_to_add@.contains(j as usize) by {
            assert(0 <= j < i);
        }
    }
    Classification { dirs_to_create, files_to_add, files_maybe_modified, files_to_delete, dirs_to_delete }
}

/// ASCII letters folded to lower case, other bytes kept.
pub open spec fn ascii_lower(e: Seq<u8>) -> Seq<u8> {
    e.map_values(|c: u8| if 0x41 <= c <= 0x5a { (c + 32) as u8 } else { c })
}

/// Lower-case extensions of formats that are already compressed: images, video, audio,
/// archives, office containers, fonts and PDF.
pub open spec fn incompressible_ext(e: Seq<u8>) -> bool {
    ||| e == seq![0x6au8, 0x70, 0x67]
        || e == seq![0x6au8, 0x70, 0x65, 0x67]
        || e == seq![0x70u8, 0x6e, 0x67]
        || e == seq![0x67u8, 0x69, 0x66]
        || e == seq![0x62u8, 0x6d, 0x70]
        || e == seq![0x77u8, 0x65, 0x62, 0x70]
        || e == seq![0x69u8, 0x63, 0x6f]
        || e == seq![0x74u8, 0x69, 0x66, 0x66]
        || e == seq![0x74u8, 0x69, 0x66]
        || e == seq![0x61u8, 0x76, 0x69, 0x66]
        || e == seq![0x6du8, 0x70, 0x34]
        || e == seq![0x6du8, 0x6b, 0x76]
        || e == seq![0x61u8, 0x76, 0x69]
        || e == seq![0x6du8, 0x6f, 0x76]
        || e == seq![0x77u8, 0x6d, 0x76]
        || e == seq![0x66u8, 0x6c, 0x76]
        || e == seq![0x77u8, 0x65, 0x62, 0x6d]
        || e == seq![0x6du8, 0x34, 0x76]
        || e == seq![0x6du8, 0x70, 0x33]
        || e == seq![0x61u8, 0x61, 0x63]
        || e == seq![0x6fu8, 0x67, 0x67]
        || e == seq![0x66u8, 0x6c, 0x61, 0x63]
        || e == seq![0x6fu8, 0x70, 0x75, 0x73]
        || e == seq![0x6du8, 0x34, 0x61]
        || e == seq![0x77u8, 0x6d, 0x61]
        || e == seq![0x7au8, 0x69, 0x70]
        || e == seq![0x67u8, 0x7a]
        || e == seq![0x62u8, 0x7a, 0x32]
        || e == seq![0x78u8, 0x7a]
        || e == seq![0x7au8, 0x73, 0x74]
        || e == seq![0x37u8, 0x7a]
        || e == seq![0x72u8, 0x61, 0x72]
        || e == seq![0x64u8, 0x6f, 0x63, 0x78]
        || e == seq![0x78u8, 0x6c, 0x73, 0x78]
        || e == seq![0x70u8, 0x70, 0x74, 0x78]
        || e == seq![0x6fu8, 0x64, 0x74]
        || e == seq![0x6fu8, 0x64, 0x73]
        || e == seq![0x6fu8, 0x64, 0x70]
        || e == seq![0x77u8, 0x6f, 0x66, 0x66]
        || e == seq![0x77u8, 0x6f, 0x66, 0x66, 0x32]
        || e == seq![0x70u8, 0x64, 0x66]
}

/// `d` is the dot that opens the extension of the last component of `b`: it is the last `.`
/// of that component and not its first byte.
pub open spec fn extension_dot(b: Seq<u8>, d: int) -> bool {
    &&& 0 < d < b.len()
    &&& b[d] == 0x2e
    &&& b[d - 1] != 0x2f
    &&& forall|k: int| d < k < b.len() ==> b[k] != 0x2e && b[k] != 0x2f
}

/// The path's extension, compared without regard to ASCII case, marks an incompressible
/// format.
pub open spec fn incompressible_path(b: Seq<u8>) -> bool {
    exists|d: int| #[trigger] extension_dot(b, d) && incompressible_ext(ascii_lower(b.subrange(d + 1, b.len() as int)))
}

fn lowercase_ascii(e: &[u8]) -> (r: Vec<u8>)
    ensures
        r@ == ascii_lower(e@),
{
    let mut r: Vec<u8> = Vec::with_capacity(e.len());
    let mut i: usize = 0;
    while i < e.len()
        invariant
            i <= e@.len(),
            r@ == ascii_lower(e@.subrange(0, i as int)),
        decreases e@.len() - i,
    {
        let c = e[i];
        let l = if 0x41 <= c && c <= 0x5a {
            c + 32
        } else {
            c
        };
        r.push(l);
        i = i + 1;
        proof {
            assert(ascii_lower(e@.subrange(0, i as int)) =~= ascii_lower(e@.subrange(0, i - 1)).push(l));
        }
    }
    proof {
        assert(e@.subrange(0, e@.len() as int) =~= e@);
    }
    r
}

fn is_incompressible_ext(e: &[u8]) -> (r: bool)
    ensures
        r == incompressible_ext(e@),
{
    if same_bytes(e, &[0x6au8, 0x70, 0x67]) {
        return true;
    }
    if same_bytes(e, &[0x6au8, 0x70, 0x65, 0x67]) {
        return true;
    }
    if same_bytes(e, &[0x70u8, 0x6e, 0x67]) {
        return true;
    }
    if same_bytes(e, &[0x67u8, 0x69, 0x66]) {
        return true;
    }
    if same_bytes(e, &[0x62u8, 0x6d, 0x70]) {
        return true;
    }
    if same_bytes(e, &[0x77u8, 0x65, 0x62, 0x70]) {
        return true;
    }
    if same_bytes(e, &[0x69u8, 0x63, 0x6f]) {
        return true;
    }
    if same_bytes(e, &[0x74u8, 0x69, 0x66, 0x66]) {
        return true;
    }
    if same_bytes(e, &[0x74u8, 0x69, 0x66]) {
        return true;
    }
    if same_bytes(e, &[0x61u8, 0x76, 0x69, 0x66]) {
        return true;
    }
    if same_bytes(e, &[0x6du8, 0x70, 0x34]) {
        return true;
    }
    if same_bytes(e, &[0x6du8, 0x6b, 0x76]) {
        return true;
    }
    if same_bytes(e, &[0x61u8, 0x76, 0x69]) {
        return true;
    }
    if same_bytes(e, &[0x6du8, 0x6f, 0x76]) {
        return true;
    }
    if same_bytes(e, &[0x77u8, 0x6d, 0x76]) {
        return true;
    }
    if same_bytes(e, &[0x66u8, 0x6c, 0x76]) {
        return true;
    }
    if same_bytes(e, &[0x77u8, 0x65, 0x62, 0x6d]) {
        return true;
    }
    if same_bytes(e, &[0x6du8, 0x34, 0x76]) {
        return true;
    }
    if same_bytes(e, &[0x6du8, 0x70, 0x33]) {
        return true;
    }
    if same_bytes(e, &[0x61u8, 0x61, 0x63]) {
        return true;
    }
    if same_bytes(e, &[0x6fu8, 0x67, 0x67]) {
        return true;
    }
    if same_bytes(e, &[0x66u8, 0x6c, 0x61, 0x63]) {
        return true;
    }
    if same_bytes(e, &[0x6fu8, 0x70, 0x75, 0x73]) {
        return true;
    }
    if same_bytes(e, &[0x6du8, 0x34, 0x61]) {
        return true;
    }
    if same_bytes(e, &[0x77u8, 0x6d, 0x61]) {
        return true;
    }
    if same_bytes(e, &[0x7au8, 0x69, 0x70]) {
        return true;
    }
    if same_bytes(e, &[0x67u8, 0x7a]) {
        return true;
    }
    if same_bytes(e, &[0x62u8, 0x7a, 0x32]) {
        return true;
    }
    if same_bytes(e, &[0x78u8, 0x7a]) {
        return true;
    }
    if same_bytes(e, &[0x7au8, 0x73, 0x74]) {
        return true;
    }
    if same_bytes(e, &[0x37u8, 0x7a]) {
        return true;
    }
    if same_bytes(e, &[0x72u8, 0x61, 0x72]) {
        return true;
    }
    if same_bytes(e, &[0x64u8, 0x6f, 0x63, 0x78]) {
        return true;
    }
    if same_bytes(e, &[0x78u8, 0x6c, 0x73, 0x78]) {
        return true;
    }
    if same_bytes(e, &[0x70u8, 0x70, 0x74, 0x78]) {
        return true;
    }
    if same_bytes(e, &[0x6fu8, 0x64, 0x74]) {
        return true;
    }
    if same_bytes(e, &[0x6fu8, 0x64, 0x73]) {
        return true;
    }
    if same_bytes(e, &[0x6fu8, 0x64, 0x70]) {
        return true;
    }
    if same_bytes(e, &[0x77u8, 0x6f, 0x66, 0x66]) {
        return true;
    }
    if same_bytes(e, &[0x77u8, 0x6f, 0x66, 0x66, 0x32]) {
        return true;
    }
    if same_bytes(e, &[0x70u8, 0x64, 0x66]) {
        return true;
    }
    false
}

/// Whether the file at `path` is stored whole rather than diffed, judged by its extension.
pub fn is_incompressible(path: &String) -> (r: bool)
    requires
        valid_wire_path(path_bytes(path@)),
    ensures
        r == incompressible_path(path_bytes(path@)),
{
    let b = path_as_bytes(path);
    let mut k: usize = b.len();
    while k > 0
        invariant
            k <= b@.len(),
            b@ == path_bytes(path@),
            forall|j: int| k <= j < b@.len() ==> b@[j] != 0x2e && b@[j] != 0x2f,
        decreases k,
    {
        let c = b[k - 1];
        if c == 0x2f {
            proof {
                assert forall|d: int| !#[trigger] extension_dot(b@, d) by {
                    if 0 < d < b@.len() && b@[d] == 0x2e && d < k - 1 {
                        assert(b@[k - 1] == 0x2f);
                    }
                }
            }
            return false;
        }
        if c == 0x2e {
            let d = k - 1;
            if d == 0 || b[d - 1] == 0x2f {
                proof {
                    assert forall|x: int| !#[trigger] extension_dot(b@, x) by {
                        if extension_dot(b@, x) && x < d {
                            assert(b@[d as int] == 0x2e);
                        }
                    }
                }
                return false;
            }
            let lower = lowercase_ascii(&b[d + 1..b.len()]);
            let r = is_incompressible_ext(lower.as_slice());
            proof {
                assert(extension_dot(b@, d as int));
                assert forall|x: int| #[trigger] extension_dot(b@, x) implies x == d by {
                    if x < d {
                        assert(b@[d as int] == 0x2e);
                    }
                }
            }
            return r;
        }
        k = k - 1;
    }
    proof {
        assert forall|d: int| !#[trigger] extension_dot(b@, d) by {
            if 0 < d < b@.len() {
                assert(b@[d] != 0x2e);
            }
        }
    }
    false
}

/// The `AddFile` operation that creates `path` with `data`.
pub fn add_file_op(path: String, data: Vec<u8>) -> (r: PatchOp)
    ensures
        r matches PatchOp::AddFile { path: p, data: d, blake3_hash: h } && p == path && d == data
            && h@ == blake3_of(data@),
{
    let blake3_hash = hash_bytes(data.as_slice());
    PatchOp::AddFile { path, data, blake3_hash }
}

/// The `ModifyFile` operation that turns `old` into `new` at `path`, or `None` where the two
/// have the same size and the same content hash.
///
/// An incompressible file is carried whole as a single `Insert`; any other goes through the
/// block differ.
pub fn modify_file_op(path: String, old: &[u8], new: &[u8]) -> (r: Option<PatchOp>)
    requires
        valid_wire_path(path_bytes(path@)),
    ensures
        r is None <==> (old@.len() == new@.len() && blake3_of(old@) == blake3_of(new@)),
        old@ == new@ ==> r is None,
        r matches Some(op) ==> op matches PatchOp::ModifyFile { path: p, diff_chunks, new_blake3_hash }
            && p == path && new_blake3_hash@ == blake3_of(new@) && apply_chunks(old@, diff_chunks@) == new@
            && chunks_in_range(old@.len() as int, diff_chunks@) && (incompressible_path(path_bytes(path@)) ==> (
        diff_chunks@.len() == 1 && diff_chunks@[0] is Insert && diff_chunks@[0]->data@ == new@)) && (
        !incompressible_path(path_bytes(path@)) ==> is_diff_of(old@, new@, diff_chunks@)),
{
    let new_hash = hash_bytes(new);
    if old.len() == new.len() {
        let old_hash = hash_bytes(old);
        if same_bytes(&old_hash, &new_hash) {
            return None;
        }
    }
    let diff_chunks = if is_incompressible(&path) {
        let mut v: Vec<DiffChunk> = Vec::new();
        v.push(DiffChunk::Insert { data: bytes_to_vec(new) });
        proof {
            assert(v@.drop_last() =~= Seq::<DiffChunk>::empty());
            assert(apply_chunks(old@, v@.drop_last()) =~= Seq::<u8>::empty());
            assert(apply_chunks(old@, v@) =~= new@);
        }
        v
    } else {
        compute_diff(old, new)
    };
    Some(PatchOp::ModifyFile { path, diff_chunks, new_blake3_hash: new_hash })
}

/// The path of each operation, in order.
pub open spec fn op_paths(ops: Seq<PatchOp>) -> Seq<Seq<char>> {
    ops.map_values(|o: PatchOp| o.spec_path())
}

/// `ops` is the manifest body that `assemble_manifest` builds from these lists: the
/// `CreateDir`s of `creates` sorted parent first, `adds`, `mods`, the `DeleteFile`s of
/// `file_deletes` in their order, then the `DeleteDir`s of `dir_deletes` sorted deepest first.
pub open spec fn is_assembly_of(
    ops: Seq<PatchOp>,
    creates: Seq<String>,
    adds: Seq<PatchOp>,
    mods: Seq<PatchOp>,
    file_deletes: Seq<String>,
    dir_deletes: Seq<String>,
) -> bool {
    let nc = creates.len() as int;
    let na = adds.len() as int;
    let nm = mods.len() as int;
    let nf = file_deletes.len() as int;
    let nd = dir_deletes.len() as int;
    let dd = nc + na + nm + nf;
    &&& ops.len() == dd + nd
    &&& forall|k: int| 0 <= k < nc ==> #[trigger] ops[k] is CreateDir
    &&& op_paths(ops.subrange(0, nc)).to_multiset() == path_views(creates).to_multiset()
    &&& forall|i: int, j: int| 0 <= i < j < nc ==> !path_lt(#[trigger] ops[j].spec_path(), #[trigger] ops[i].spec_path())
    &&& ops.subrange(nc, nc + na) == adds
    &&& ops.subrange(nc + na, nc + na + nm) == mods
    &&& forall|k: int| 0 <= k < nf ==> #[trigger] ops[nc + na + nm + k] == PatchOp::DeleteFile { path: file_deletes[k] }
    &&& forall|k: int| dd <= k < dd + nd ==> #[trigger] ops[k] is DeleteDir
    &&& op_paths(ops.subrange(dd, dd + nd)).to_multiset() == path_views(dir_deletes).to_multiset()
    &&& forall|i: int, j: int| dd <= i < j < dd + nd ==> !path_lt(#[trigger] ops[i].spec_path(), #[trigger] ops[j].spec_path())
}

/// Appends one operation per path: a `CreateDir` for `kind` 0, a `DeleteFile` for 1 and a
/// `DeleteDir` for 2.
fn push_path_ops(ops: &mut Vec<PatchOp>, paths: &Vec<String>, kind: u8)
    requires
        kind <= 2,
    ensures
        final(ops)@.len() == old(ops)@.len() + paths@.len(),
        final(ops)@.subrange(0, old(ops)@.len() as int) == old(ops)@,
        forall|k: int| 0 <= k < paths@.len() ==> #[trigger] final(ops)@[old(ops)@.len() + k] == if kind == 0 {
            PatchOp::CreateDir { path: paths@[k] }
        } else if kind == 1 {
            PatchOp::DeleteFile { path: paths@[k] }
        } else {
            PatchOp::DeleteDir { path: paths@[k] }
        },
{
    let ghost start = ops@;
    let mut i: usize = 0;
    while i < paths.len()
        invariant
            kind <= 2,
            i <= paths@.len(),
            ops@.len() == start.len() + i,
            ops@.subrange(0, start.len() as int) == start,
            forall|k: int| 0 <= k < i ==> #[trigger] ops@[start.len() + k] == if kind == 0 {
                PatchOp::CreateDir { path: paths@[k] }
            } else if kind == 1 {
                PatchOp::DeleteFile { path: paths@[k] }
            } else {
                PatchOp::DeleteDir { path: paths@[k] }
            },
        decreases paths@.len() - i,
    {
        let p = paths[i].clone();
        let op = if kind == 0 {
            PatchOp::CreateDir { path: p }
        } else if kind == 1 {
            PatchOp::DeleteFile { path: p }
        } else {
            PatchOp::DeleteDir { path: p }
        };
        ops.push(op);
        proof {
            assert(ops@.subrange(0, start.len() as int) =~= start);
        }
        i = i + 1;
    }
}

/// Appends the operations of `more`, in order.
fn push_ops(ops: &mut Vec<PatchOp>, more: Vec<PatchOp>)
    ensures
        final(ops)@ == old(ops)@ + more@,
{
    let mut more = more;
    ops.append(&mut more);
}

/// Orders the operations into a manifest and counts them.
pub fn assemble_manifest(
    dirs_to_create: Vec<String>,
    adds: Vec<PatchOp>,
    modifies: Vec<PatchOp>,
    files_to_delete: Vec<String>,
    dirs_to_delete: Vec<String>,
) -> (r: (PatchManifest, ApplySummary))
    ensures
        r.0.version == FORMAT_VERSION,
        is_assembly_of(r.0.operations@, dirs_to_create@, adds@, modifies@, files_to_delete@, dirs_to_delete@),
        r.1 == (ApplySummary {
            dirs_created: dirs_to_create@.len() as usize,
            files_added: adds@.len() as usize,
            files_modified: modifies@.len() as usize,
            files_deleted: files_to_delete@.len() as usize,
            dirs_deleted: dirs_to_delete@.len() as usize,
        }),
{
    let summary = ApplySummary {
        dirs_created: dirs_to_create.len(),
        files_added: adds.len(),
        files_modified: modifies.len(),
        files_deleted: files_to_delete.len(),
        dirs_deleted: dirs_to_delete.len(),
    };
    let ghost c0 = dirs_to_create@;
    let ghost d0 = dirs_to_delete@;
    let mut creates = dirs_to_create;
    sort_dirs_parent_first(&mut creates);
    let mut deletes = dirs_to_delete;
    sort_dirs_deepest_first(&mut deletes);
    let ghost cs = creates@;
    let ghost ds = deletes@;
    let mut ops: Vec<PatchOp> = Vec::new();
    push_path_ops(&mut ops, &creates, 0);
    let ghost o1 = ops@;
    push_ops(&mut ops, adds);
    let ghost o2 = ops@;
    push_ops(&mut ops, modifies);
    let ghost o3 = ops@;
    push_path_ops(&mut ops, &files_to_delete, 1);
    let ghost o4 = ops@;
    push_path_ops(&mut ops, &deletes, 2);
    proof {
        let nc = cs.len() as int;
        let dd = o4.len() as int;
        assert(ops@.subrange(0, dd) == o4);
        assert(o4.subrange(0, o3.len() as int) == o3);
        assert(o1 =~= ops@.subrange(0, nc)) by {
            assert forall|k: int| 0 <= k < nc implies o1[k] == ops@[k] by {
                assert(o2[k] == o1[k]);
                assert(o3[k] == o2[k]);
                assert(o4[k] == o3[k]);
                assert(ops@[k] == o4[k]);
            }
        }
        assert forall|k: int| 0 <= k < nc implies #[trigger] op_paths(o1)[k] == path_views(cs)[k] by {
            assert(o1[0 + k] == PatchOp::CreateDir { path: cs[k] });
        }
        assert(op_paths(o1) =~= path_views(cs));
        assert forall|k: int| 0 <= k < ds.len() implies #[trigger] op_paths(ops@.subrange(dd, ops@.len() as int))[k]
            == path_views(ds)[k] by {
            assert(ops@[dd + k] == PatchOp::DeleteDir { path: ds[k] });
        }
        assert(op_paths(ops@.subrange(dd, ops@.len() as int)) =~= path_views(ds));
        assert(ops@.subrange(nc, nc + adds@.len()) =~= adds@) by {
            assert forall|k: int| 0 <= k < adds@.len() implies ops@[nc + k] == adds@[k] by {
                assert(o2[nc + k] == adds@[k]);
                assert(o3[nc + k] == o2[nc + k]);
                assert(o4[nc + k] == o3[nc + k]);
                assert(ops@[nc + k] == o4[nc + k]);
            }
        }
        assert(ops@.subrange(o2.len() as int, o3.len() as int) =~= modifies@) by {
            assert forall|k: int| 0 <= k < modifies@.len() implies ops@[o2.len() + k] == modifies@[k] by {
                assert(o3[o2.len() + k] == modifies@[k]);
                assert(o4[o2.len() + k] == o3[o2.len() + k]);
                assert(ops@[o2.len() + k] == o4[o2.len() + k]);
            }
        }
        assert forall|k: int| 0 <= k < files_to_delete@.len() implies #[trigger] ops@[o3.len() + k] == PatchOp::DeleteFile { path: files_to_delete@[k] } by {
            assert(ops@[o3.len() + k] == o4[o3.len() + k]);
        }
        assert forall|i: int, j: int| 0 <= i < j < nc implies !path_lt(#[trigger] ops@[j].spec_path(), #[trigger] ops@[i].spec_path()) by {
            assert(ops@[i] == o1[i]);
            assert(ops@[j] == o1[j]);
            assert(o1[0 + i] == PatchOp::CreateDir { path: cs[i] });
            assert(o1[0 + j] == PatchOp::CreateDir { path: cs[j] });
        }
        assert forall|k: int| 0 <= k < nc implies #[trigger] ops@[k] is CreateDir by {
            assert(ops@[k] == o1[k]);
            assert(o1[0 + k] == PatchOp::CreateDir { path: cs[k] });
        }
        assert forall|k: int| dd <= k < ops@.len() implies #[trigger] ops@[k] is DeleteDir by {
            assert(ops@[dd + (k - dd)] == PatchOp::DeleteDir { path: ds[k - dd] });
        }
        assert forall|i: int, j: int| dd <= i < j < ops@.len() implies !path_lt(#[trigger] ops@[i].spec_path(), #[trigger] ops@[j].spec_path()) by {
            assert(ops@[dd + (i - dd)] == PatchOp::DeleteDir { path: ds[i - dd] });
            assert(ops@[dd + (j - dd)] == PatchOp::DeleteDir { path: ds[j - dd] });
        }
    }
    (PatchManifest { version: FORMAT_VERSION, operations: ops }, summary)
}

/// An empty walk leaves nothing in a list of paths only on its side.
proof fn lemma_empty_side_lists_nothing(v: Seq<String>, side: Seq<DirEntry>, other: Seq<DirEntry>, kind: EntryKind)
    requires
        side.len() == 0,
        lists_only_in(v, side, other, kind),
    ensures
        v.len() == 0,
{
    let idx = choose|idx: Seq<int>|
        {
            &&& #[trigger] idx.len() == v.len()
            &&& forall|k: int| 0 <= k < idx.len() ==> only_in(side, other, #[trigger] idx[k], kind)
                && v[k]@ == side[idx[k]].relative_path@
            &&& forall|k1: int, k2: int| 0 <= k1 < k2 < idx.len() ==> #[trigger] idx[k1] < #[trigger] idx[k2]
            &&& forall|i: int| only_in(side, other, i, kind) ==> #[trigger] idx.contains(i)
        };
    if v.len() > 0 {
        assert(only_in(side, other, idx[0], kind));
    }
}

/// A patch built against an empty old tree only creates: every operation that
/// `assemble_manifest` orders from a classification with an empty old walk, from `AddFile`s
/// and from modifications of its candidate pairs is a `CreateDir` or an `AddFile`.
pub proof fn lemma_empty_old_only_creates(
    old: Seq<DirEntry>,
    new: Seq<DirEntry>,
    c: Classification,
    adds: Seq<PatchOp>,
    mods: Seq<PatchOp>,
    ops: Seq<PatchOp>,
)
    requires
        old.len() == 0,
        c.is_classification_of(old, new),
        forall|k: int| 0 <= k < adds.len() ==> #[trigger] adds[k] is AddFile,
        mods.len() <= c.files_maybe_modified@.len(),
        is_assembly_of(ops, c.dirs_to_create@, adds, mods, c.files_to_delete@, c.dirs_to_delete@),
    ensures
        forall|k: int| 0 <= k < ops.len() ==> #[trigger] ops[k] is CreateDir || ops[k] is AddFile,
{
    lemma_empty_side_lists_nothing(c.files_to_delete@, old, new, EntryKind::File);
    lemma_empty_side_lists_nothing(c.dirs_to_delete@, old, new, EntryKind::Dir);
    if c.files_maybe_modified@.len() > 0 {
        assert(file_in_both(old, new, c.files_maybe_modified@[0].0 as int, c.files_maybe_modified@[0].1 as int));
    }
    let nc = c.dirs_to_create@.len() as int;
    assert forall|k: int| 0 <= k < ops.len() implies #[trigger] ops[k] is CreateDir || ops[k] is AddFile by {
        if k >= nc {
            assert(ops.subrange(nc, nc + adds.len())[k - nc] == adds[k - nc]);
        }
    }
}

/// A patch built against an empty new tree only deletes: every operation that
/// `assemble_manifest` orders from a classification with an empty new walk, from additions of
/// its files to add and from modifications of its candidate pairs is a `DeleteFile` or a
/// `DeleteDir`.
pub proof fn lemma_empty_new_only_deletes(
    old: Seq<DirEntry>,
    new: Seq<DirEntry>,
    c: Classification,
    adds: Seq<PatchOp>,
    mods: Seq<PatchOp>,
    ops: Seq<PatchOp>,
)
    requires
        new.len() == 0,
        c.is_classification_of(old, new),
        adds.len() <= c.files_to_add@.len(),
        mods.len() <= c.files_maybe_modified@.len(),
        is_assembly_of(ops, c.dirs_to_create@, adds, mods, c.files_to_delete@, c.dirs_to_delete@),
    ensures
        forall|k: int| 0 <= k < ops.len() ==> #[trigger] ops[k] is DeleteFile || ops[k] is DeleteDir,
{
    lemma_empty_side_lists_nothing(c.dirs_to_create@, new, old, EntryKind::Dir);
    if c.files_to_add@.len() > 0 {
        assert(only_in(new, old, c.files_to_add@[0] as int, EntryKind::File));
    }
    if c.files_maybe_modified@.len() > 0 {
        assert(file_in_both(old, new, c.files_maybe_modified@[0].0 as int, c.files_maybe_modified@[0].1 as int));
    }
    let nf = c.files_to_delete@.len() as int;
    assert forall|k: int| 0 <= k < ops.len() implies #[trigger] ops[k] is DeleteFile || ops[k] is DeleteDir by {
        if k < nf {
            assert(ops[0 + 0 + 0 + k] == PatchOp::DeleteFile { path: c.files_to_delete@[k] });
        }
    }
}

/// Two walks that differ in some path or in the kind at some path give a patch with a
/// non-zero count: some directory is created or deleted, or some file is added or deleted.
pub proof fn lemma_path_changes_are_counted(
    old: Seq<DirEntry>,
    new: Seq<DirEntry>,
    c: Classification,
    adds: Seq<PatchOp>,
    mods: Seq<PatchOp>,
    summary: ApplySummary,
)
    requires
        c.is_classification_of(old, new),
        adds.len() == c.files_to_add@.len(),
        summary.dirs_created == c.dirs_to_create@.len(),
        summary.files_added == adds.len(),
        summary.files_modified == mods.len(),
        summary.files_deleted == c.files_to_delete@.len(),
        summary.dirs_deleted == c.dirs_to_delete@.len(),
        (exists|i: int| 0 <= i < new.len() && !has_path_of_kind(old, #[trigger] new[i].relative_path@, new[i].kind))
            || (exists|i: int| 0 <= i < old.len() && !has_path_of_kind(new, #[trigger] old[i].relative_path@, old[i].kind)),
    ensures
        summary.files_added + summary.files_modified + summary.files_deleted + summary.dirs_created
            + summary.dirs_deleted > 0,
{
    if exists|i: int| 0 <= i < new.len() && !has_path_of_kind(old, #[trigger] new[i].relative_path@, new[i].kind) {
        let i = choose|i: int| 0 <= i < new.len() && !has_path_of_kind(old, #[trigger] new[i].relative_path@, new[i].kind);
        lemma_listed_when_only_in(c.dirs_to_create@, new, old, EntryKind::Dir, i);
        if new[i].kind == EntryKind::File {
            assert(c.files_to_add@.contains(i as usize));
        }
    } else {
        let i = choose|i: int| 0 <= i < old.len() && !has_path_of_kind(new, #[trigger] old[i].relative_path@, old[i].kind);
        lemma_listed_when_only_in(c.files_to_delete@, old, new, EntryKind::File, i);
        lemma_listed_when_only_in(c.dirs_to_delete@, old, new, EntryKind::Dir, i);
    }
}

/// Two identical walks classify into nothing to create, add or delete; what is left are the
/// files present in both, each of which `modify_file_op` drops when its bytes are unchanged.
pub proof fn lemma_identical_walks_change_nothing(x: Seq<DirEntry>, c: Classification)
    requires
        c.is_classification_of(x, x),
    ensures
        c.dirs_to_create@.len() == 0,
        c.files_to_add@.len() == 0,
        c.files_to_delete@.len() == 0,
        c.dirs_to_delete@.len() == 0,
{
    lemma_nothing_only_in_itself(c.dirs_to_create@, x, EntryKind::Dir);
    lemma_nothing_only_in_itself(c.files_to_delete@, x, EntryKind::File);
    lemma_nothing_only_in_itself(c.dirs_to_delete@, x, EntryKind::Dir);
    if c.files_to_add@.len() > 0 {
        let i = c.files_to_add@[0] as int;
        assert(only_in(x, x, i, EntryKind::File));
        assert(has_path(x, x[i].relative_path@));
    }
}

proof fn lemma_nothing_only_in_itself(v: Seq<String>, x: Seq<DirEntry>, kind: EntryKind)
    requires
        lists_only_in(v, x, x, kind),
    ensures
        v.len() == 0,
{
    let idx = choose|idx: Seq<int>|
        {
            &&& #[trigger] idx.len() == v.len()
            &&& forall|k: int| 0 <= k < idx.len() ==> only_in(x, x, #[trigger] idx[k], kind)
                && v[k]@ == x[idx[k]].relative_path@
            &&& forall|k1: int, k2: int| 0 <= k1 < k2 < idx.len() ==> #[trigger] idx[k1] < #[trigger] idx[k2]
            &&& forall|i: int| only_in(x, x, i, kind) ==> #[trigger] idx.contains(i)
        };
    if v.len() > 0 {
        assert(only_in(x, x, idx[0], kind));
        assert(has_path(x, x[idx[0]].relative_path@));
    }
}

/// A list of paths only on one side is not empty when such an entry exists.
proof fn lemma_listed_when_only_in(v: Seq<String>, side: Seq<DirEntry>, other: Seq<DirEntry>, kind: EntryKind, i: int)
    requires
        lists_only_in(v, side, other, kind),
    ensures
        only_in(side, other, i, kind) ==> v.len() > 0,
{
    let idx = choose|idx: Seq<int>|
        {
            &&& #[trigger] idx.len() == v.len()
            &&& forall|k: int| 0 <= k < idx.len() ==> only_in(side, other, #[trigger] idx[k], kind)
                && v[k]@ == side[idx[k]].relative_path@
            &&& forall|k1: int, k2: int| 0 <= k1 < k2 < idx.len() ==> #[trigger] idx[k1] < #[trigger] idx[k2]
            &&& forall|i: int| only_in(side, other, i, kind) ==> #[trigger] idx.contains(i)
        };
    if only_in(side, other, i, kind) {
        assert(idx.contains(i));
    }
}

} // verus!
