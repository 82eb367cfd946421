//! How a plan read back from an assembled manifest relates to the two walks it came from.
use crate::apply::{
    has_ancestor_in,
    has_parent_in,
    in_phase,
    lemma_bulk_deletion_complete,
    ops_of_phase,
    orphan_files,
    removed_with,
    root_dirs,
    ApplyPlan,
};
use crate::create::{has_path_of_kind, paths_unique, is_assembly_of, lists_only_in, only_in, op_paths, Classification};
use crate::patch_format::PatchOp;
use crate::util::{is_ancestor_path, path_bytes, path_views, DirEntry, EntryKind};
use vstd::prelude::*;
use vstd::utf8::encode_utf8_decode_utf8;

verus! {

/// Every directory above a walked path is walked too, as a directory, as in any directory
/// walk.
pub open spec fn closed_under_parents(entries: Seq<DirEntry>) -> bool {
    forall|i: int, q: Seq<char>|
        #![trigger is_ancestor_path(path_bytes(q), path_bytes(entries[i].relative_path@))]
        0 <= i < entries.len() && is_ancestor_path(path_bytes(q), path_bytes(entries[i].relative_path@))
            ==> has_path_of_kind(entries, q, EntryKind::Dir)
}

proof fn lemma_filter_whole_phase(seg: Seq<PatchOp>, ph: int)
    requires
        forall|k: int| 0 <= k < seg.len() ==> (#[trigger] seg[k]).phase() == ph,
    ensures
        seg.filter(in_phase(ph)) == seg,
    decreases seg.len(),
{
    reveal(Seq::filter);
    if seg.len() > 0 {
        lemma_filter_whole_phase(seg.drop_last(), ph);
        assert(seg.drop_last().push(seg.last()) =~= seg);
    }
}

proof fn lemma_filter_other_phase(seg: Seq<PatchOp>, ph: int)
    requires
        forall|k: int| 0 <= k < seg.len() ==> (#[trigger] seg[k]).phase() != ph,
    ensures
        seg.filter(in_phase(ph)) == Seq::<PatchOp>::empty(),
    decreases seg.len(),
{
    reveal(Seq::filter);
    if seg.len() > 0 {
        lemma_filter_other_phase(seg.drop_last(), ph);
    }
}

/// The operations of phase `ph` in `s0 + s1 + s2 + s3 + s4`, where `s_i` holds phase `i`
/// only, are exactly `s_ph`.
proof fn lemma_phases_of_segments(
    s0: Seq<PatchOp>,
    s1: Seq<PatchOp>,
    s2: Seq<PatchOp>,
    s3: Seq<PatchOp>,
    s4: Seq<PatchOp>,
    ph: int,
)
    requires
        0 <= ph <= 4,
        forall|k: int| 0 <= k < s0.len() ==> (#[trigger] s0[k]).phase() == 0,
        forall|k: int| 0 <= k < s1.len() ==> (#[trigger] s1[k]).phase() == 1,
        forall|k: int| 0 <= k < s2.len() ==> (#[trigger] s2[k]).phase() == 2,
        forall|k: int| 0 <= k < s3.len() ==> (#[trigger] s3[k]).phase() == 3,
        forall|k: int| 0 <= k < s4.len() ==> (#[trigger] s4[k]).phase() == 4,
    ensures
        ops_of_phase(s0 + s1 + s2 + s3 + s4, ph) == if ph == 0 {
            s0
        } else if ph == 1 {
            s1
        } else if ph == 2 {
            s2
        } else if ph == 3 {
            s3
        } else {
            s4
        },
{
    let p = in_phase(ph);
    Seq::filter_distributes_over_add(s0 + s1 + s2 + s3, s4, p);
    Seq::filter_distributes_over_add(s0 + s1 + s2, s3, p);
    Seq::filter_distributes_over_add(s0 + s1, s2, p);
    Seq::filter_distributes_over_add(s0, s1, p);
    if ph == 0 { lemma_filter_whole_phase(s0, 0); } else { lemma_filter_other_phase(s0, ph); }
    if ph == 1 { lemma_filter_whole_phase(s1, 1); } else { lemma_filter_other_phase(s1, ph); }
    if ph == 2 { lemma_filter_whole_phase(s2, 2); } else { lemma_filter_other_phase(s2, ph); }
    if ph == 3 { lemma_filter_whole_phase(s3, 3); } else { lemma_filter_other_phase(s3, ph); }
    if ph == 4 { lemma_filter_whole_phase(s4, 4); } else { lemma_filter_other_phase(s4, ph); }
    assert(Seq::<PatchOp>::empty() + s0 =~= s0);
    assert(s1 + Seq::<PatchOp>::empty() =~= s1);
    assert(Seq::<PatchOp>::empty() + Seq::<PatchOp>::empty() =~= Seq::<PatchOp>::empty());
    assert(s0 + Seq::<PatchOp>::empty() =~= s0);
    assert(Seq::<PatchOp>::empty() + s2 =~= s2);
    assert(Seq::<PatchOp>::empty() + s3 =~= s3);
    assert(Seq::<PatchOp>::empty() + s4 =~= s4);
    assert(s2 + Seq::<PatchOp>::empty() =~= s2);
    assert(s3 + Seq::<PatchOp>::empty() =~= s3);
    assert(s1 + Seq::<PatchOp>::empty() + Seq::<PatchOp>::empty() =~= s1);
}

/// A multiset of equal sequences' elements: what one sequence holds, the other holds.
proof fn lemma_contains_by_multiset(a: Seq<Seq<char>>, b: Seq<Seq<char>>, x: Seq<char>)
    requires
        a.to_multiset() == b.to_multiset(),
        a.contains(x),
    ensures
        b.contains(x),
{
    a.to_multiset_ensures();
    b.to_multiset_ensures();
    assert(a.to_multiset().count(x) > 0);
    assert(b.to_multiset().count(x) > 0);
}

/// Every listed path of one side is the path of an entry that the other side lacks.
proof fn lemma_listed_is_only_in(v: Seq<String>, side: Seq<DirEntry>, other: Seq<DirEntry>, kind: EntryKind, x: Seq<char>)
    requires
        lists_only_in(v, side, other, kind),
        path_views(v).contains(x),
    ensures
        !has_path_of_kind(other, x, kind),
        has_path_of_kind(side, x, kind),
{
    let idx = choose|idx: Seq<int>|
        {
            &&& #[trigger] idx.len() == v.len()
            &&& forall|k: int| 0 <= k < idx.len() ==> only_in(side, other, #[trigger] idx[k], kind)
                && v[k]@ == side[idx[k]].relative_path@
            &&& forall|k1: int, k2: int| 0 <= k1 < k2 < idx.len() ==> #[trigger] idx[k1] < #[trigger] idx[k2]
            &&& forall|i: int| only_in(side, other, i, kind) ==> #[trigger] idx.contains(i)
        };
    let k = choose|k: int| 0 <= k < path_views(v).len() && path_views(v)[k] == x;
    assert(only_in(side, other, idx[k], kind));
    assert(side[idx[k]].relative_path@ == x);
}

/// Every entry of one side that the other lacks has its path listed.
proof fn lemma_only_in_is_listed(v: Seq<String>, side: Seq<DirEntry>, other: Seq<DirEntry>, kind: EntryKind, i: int)
    requires
        lists_only_in(v, side, other, kind),
        only_in(side, other, i, kind),
    ensures
        path_views(v).contains(side[i].relative_path@),
{
    let idx = choose|idx: Seq<int>|
        {
            &&& #[trigger] idx.len() == v.len()
            &&& forall|k: int| 0 <= k < idx.len() ==> only_in(side, other, #[trigger] idx[k], kind)
                && v[k]@ == side[idx[k]].relative_path@
            &&& forall|k1: int, k2: int| 0 <= k1 < k2 < idx.len() ==> #[trigger] idx[k1] < #[trigger] idx[k2]
            &&& forall|i: int| only_in(side, other, i, kind) ==> #[trigger] idx.contains(i)
        };
    assert(idx.contains(i));
    let k = choose|k: int| 0 <= k < idx.len() && idx[k] == i;
    assert(path_views(v)[k] == side[i].relative_path@);
}

proof fn lemma_cut_in_five(s: Seq<PatchOp>, a: int, b: int, c: int, d: int)
    requires
        0 <= a <= b <= c <= d <= s.len(),
    ensures
        s == s.subrange(0, a) + s.subrange(a, b) + s.subrange(b, c) + s.subrange(c, d) + s.subrange(
            d,
            s.len() as int,
        ),
{
    assert(s.subrange(0, a) + s.subrange(a, b) =~= s.subrange(0, b));
    assert(s.subrange(0, b) + s.subrange(b, c) =~= s.subrange(0, c));
    assert(s.subrange(0, c) + s.subrange(c, d) =~= s.subrange(0, d));
    assert(s.subrange(0, d) + s.subrange(d, s.len() as int) =~= s);
}

/// The phases of an assembled manifest: its `CreateDir`s, `AddFile`s, `ModifyFile`s,
/// `DeleteFile`s and `DeleteDir`s are the lists it was assembled from.
proof fn lemma_assembly_phases(
    c: Classification,
    adds: Seq<PatchOp>,
    mods: Seq<PatchOp>,
    ops: Seq<PatchOp>,
)
    requires
        forall|k: int| 0 <= k < adds.len() ==> #[trigger] adds[k] is AddFile,
        forall|k: int| 0 <= k < mods.len() ==> #[trigger] mods[k] is ModifyFile,
        is_assembly_of(ops, c.dirs_to_create@, adds, mods, c.files_to_delete@, c.dirs_to_delete@),
    ensures
        ops_of_phase(ops, 1) == adds,
        ops_of_phase(ops, 2) == mods,
        op_paths(ops_of_phase(ops, 0)).to_multiset() == path_views(c.dirs_to_create@).to_multiset(),
        op_paths(ops_of_phase(ops, 3)) == path_views(c.files_to_delete@),
        op_paths(ops_of_phase(ops, 4)).to_multiset() == path_views(c.dirs_to_delete@).to_multiset(),
{
    let nc = c.dirs_to_create@.len() as int;
    let na = adds.len() as int;
    let nm = mods.len() as int;
    let nf = c.files_to_delete@.len() as int;
    let nd = c.dirs_to_delete@.len() as int;
    let dd = nc + na + nm + nf;
    let s0 = ops.subrange(0, nc);
    let s3 = ops.subrange(nc + na + nm, dd);
    let s4 = ops.subrange(dd, dd + nd);
    lemma_cut_in_five(ops, nc, nc + na, nc + na + nm, dd);
    lemma_segment_phases(c, adds, mods, ops);
    lemma_phases_of_segments(s0, adds, mods, s3, s4, 0);
    lemma_phases_of_segments(s0, adds, mods, s3, s4, 1);
    lemma_phases_of_segments(s0, adds, mods, s3, s4, 2);
    lemma_phases_of_segments(s0, adds, mods, s3, s4, 3);
    lemma_phases_of_segments(s0, adds, mods, s3, s4, 4);
    lemma_delete_file_paths(c, adds, mods, ops);
}

/// The phase of each segment of an assembled manifest.
proof fn lemma_segment_phases(c: Classification, adds: Seq<PatchOp>, mods: Seq<PatchOp>, ops: Seq<PatchOp>)
    requires
        forall|k: int| 0 <= k < adds.len() ==> #[trigger] adds[k] is AddFile,
        forall|k: int| 0 <= k < mods.len() ==> #[trigger] mods[k] is ModifyFile,
        is_assembly_of(ops, c.dirs_to_create@, adds, mods, c.files_to_delete@, c.dirs_to_delete@),
    ensures
        ({
            let nc = c.dirs_to_create@.len() as int;
            let base = nc + adds.len() as int + mods.len() as int;
            let dd = base + c.files_to_delete@.len() as int;
            let s0 = ops.subrange(0, nc);
            let s3 = ops.subrange(base, dd);
            let s4 = ops.subrange(dd, dd + c.dirs_to_delete@.len() as int);
            &&& forall|k: int| 0 <= k < s0.len() ==> (#[trigger] s0[k]).phase() == 0
            &&& forall|k: int| 0 <= k < adds.len() ==> (#[trigger] adds[k]).phase() == 1
            &&& forall|k: int| 0 <= k < mods.len() ==> (#[trigger] mods[k]).phase() == 2
            &&& forall|k: int| 0 <= k < s3.len() ==> (#[trigger] s3[k]).phase() == 3
            &&& forall|k: int| 0 <= k < s4.len() ==> (#[trigger] s4[k]).phase() == 4
        }),
{
    let nc = c.dirs_to_create@.len() as int;
    let base = nc + adds.len() as int + mods.len() as int;
    let dd = base + c.files_to_delete@.len() as int;
    let s0 = ops.subrange(0, nc);
    let s3 = ops.subrange(base, dd);
    let s4 = ops.subrange(dd, dd + c.dirs_to_delete@.len() as int);
    assert forall|k: int| 0 <= k < s3.len() implies (#[trigger] s3[k]).phase() == 3 by {
        assert(ops[base + k] == PatchOp::DeleteFile { path: c.files_to_delete@[k] });
    }
    assert forall|k: int| 0 <= k < s4.len() implies (#[trigger] s4[k]).phase() == 4 by {
        assert(ops[dd + k] is DeleteDir);
    }
    assert forall|k: int| 0 <= k < s0.len() implies (#[trigger] s0[k]).phase() == 0 by {
        assert(ops[k] is CreateDir);
    }
    assert forall|k: int| 0 <= k < adds.len() implies (#[trigger] adds[k]).phase() == 1 by {
        assert(adds[k] is AddFile);
    }
    assert forall|k: int| 0 <= k < mods.len() implies (#[trigger] mods[k]).phase() == 2 by {
        assert(mods[k] is ModifyFile);
    }
}

/// The `DeleteFile` segment of an assembled manifest names the files to delete, in order.
proof fn lemma_delete_file_paths(c: Classification, adds: Seq<PatchOp>, mods: Seq<PatchOp>, ops: Seq<PatchOp>)
    requires
        is_assembly_of(ops, c.dirs_to_create@, adds, mods, c.files_to_delete@, c.dirs_to_delete@),
    ensures
        ({
            let base = (c.dirs_to_create@.len() + adds.len() + mods.len()) as int;
            op_paths(ops.subrange(base, base + c.files_to_delete@.len() as int)) == path_views(c.files_to_delete@)
        }),
{
    let base = (c.dirs_to_create@.len() + adds.len() + mods.len()) as int;
    let s3 = ops.subrange(base, base + c.files_to_delete@.len() as int);
    assert forall|k: int| 0 <= k < s3.len() implies #[trigger] op_paths(s3)[k] == path_views(c.files_to_delete@)[k] by {
        assert(ops[base + k] == PatchOp::DeleteFile { path: c.files_to_delete@[k] });
    }
    assert(op_paths(s3) =~= path_views(c.files_to_delete@));
}

/// A path of the new walk that the deletions remove is one whose kind changed: it is then
/// created or added anew, as the kind the new walk holds.
proof fn lemma_new_paths_kept(
    old: Seq<DirEntry>,
    new: Seq<DirEntry>,
    c: Classification,
    dirs: Seq<Seq<char>>,
    files: Seq<Seq<char>>,
    i: int,
)
    requires
        c.is_classification_of(old, new),
        closed_under_parents(new),
        paths_unique(old),
        0 <= i < new.len(),
        dirs.to_multiset() == path_views(c.dirs_to_delete@).to_multiset(),
        files == path_views(c.files_to_delete@),
    ensures
        removed_with(root_dirs(dirs), new[i].relative_path@) || orphan_files(files, dirs).contains(
            new[i].relative_path@,
        ) ==> only_in(new, old, i, new[i].kind),
{
    let p = new[i].relative_path@;
    let roots = root_dirs(dirs);
    if removed_with(roots, p) {
        let m = choose|m: int|
            0 <= m < roots.len() && (path_bytes(#[trigger] roots[m]) == path_bytes(p) || is_ancestor_path(
                path_bytes(roots[m]),
                path_bytes(p),
            ));
        let r = roots[m];
        assert(roots.contains(r));
        dirs.lemma_filter_contains_rev(|x: Seq<char>| !has_parent_in(dirs, x), r);
        lemma_contains_by_multiset(dirs, path_views(c.dirs_to_delete@), r);
        lemma_listed_is_only_in(c.dirs_to_delete@, old, new, EntryKind::Dir, r);
        if path_bytes(r) == path_bytes(p) {
            encode_utf8_decode_utf8(r);
            encode_utf8_decode_utf8(p);
            assert(r == p);
            assert(new[i].kind == EntryKind::File);
            let j = choose|j: int| 0 <= j < old.len() && (#[trigger] old[j]).relative_path@ == r && old[j].kind == EntryKind::Dir;
            assert forall|j2: int| 0 <= j2 < old.len() && (#[trigger] old[j2]).relative_path@ == p implies old[j2].kind != EntryKind::File by {
                if j2 != j {
                    assert(old[j2].relative_path@ != old[j].relative_path@);
                }
            }
        } else {
            assert(is_ancestor_path(path_bytes(r), path_bytes(new[i].relative_path@)));
        }
    } else if orphan_files(files, dirs).contains(p) {
        files.lemma_filter_contains_rev(|x: Seq<char>| !has_ancestor_in(dirs, x), p);
        lemma_listed_is_only_in(c.files_to_delete@, old, new, EntryKind::File, p);
        assert(new[i].kind == EntryKind::Dir);
        let j = choose|j: int| 0 <= j < old.len() && (#[trigger] old[j]).relative_path@ == p && old[j].kind == EntryKind::File;
        assert forall|j2: int| 0 <= j2 < old.len() && (#[trigger] old[j2]).relative_path@ == p implies old[j2].kind != EntryKind::Dir by {
            if j2 != j {
                assert(old[j2].relative_path@ != old[j].relative_path@);
            }
        }
    }
}

/// The plan read back from a manifest that `assemble_manifest` ordered out of a
/// classification of two walks turns the old tree into the new one, path by path, when the
/// deletions run before the creations and additions: every directory that the old tree lacks
/// as a directory is created, every file that it lacks as a file is added, the additions and
/// modifications pass through unchanged, every path that the new tree lacks with its old kind
/// is removed (with a root deleted directory or as an orphan file), and a path of the new tree
/// is removed only where its kind changed, so that it is created or added again.
pub proof fn lemma_plan_rebuilds_new_tree(
    old: Seq<DirEntry>,
    new: Seq<DirEntry>,
    c: Classification,
    adds: Seq<PatchOp>,
    mods: Seq<PatchOp>,
    ops: Seq<PatchOp>,
    plan: ApplyPlan,
)
    requires
        c.is_classification_of(old, new),
        closed_under_parents(new),
        paths_unique(old),
        new.len() <= usize::MAX,
        adds.len() == c.files_to_add@.len(),
        forall|k: int|
            0 <= k < adds.len() ==> #[trigger] adds[k] is AddFile && adds[k].spec_path()
                == new[c.files_to_add@[k] as int].relative_path@,
        forall|k: int| 0 <= k < mods.len() ==> #[trigger] mods[k] is ModifyFile,
        is_assembly_of(ops, c.dirs_to_create@, adds, mods, c.files_to_delete@, c.dirs_to_delete@),
        plan.is_plan_of(ops),
    ensures
        plan.add_files@ == adds,
        plan.modify_files@ == mods,
        forall|i: int|
            #[trigger] only_in(new, old, i, EntryKind::Dir) ==> path_views(plan.create_dirs@).contains(
                new[i].relative_path@,
            ),
        forall|i: int|
            #[trigger] only_in(new, old, i, EntryKind::File) ==> exists|k: int|
                0 <= k < plan.add_files@.len() && (#[trigger] plan.add_files@[k]).spec_path()
                    == new[i].relative_path@,
        forall|i: int|
            0 <= i < old.len() && !has_path_of_kind(new, #[trigger] old[i].relative_path@, old[i].kind)
                ==> removed_with(path_views(plan.root_deleted_dirs@), old[i].relative_path@)
                || path_views(plan.orphan_delete_files@).contains(old[i].relative_path@),
        forall|i: int|
            0 <= i < new.len() && (removed_with(
                path_views(plan.root_deleted_dirs@),
                #[trigger] new[i].relative_path@,
            ) || path_views(plan.orphan_delete_files@).contains(new[i].relative_path@)) ==> only_in(
                new,
                old,
                i,
                new[i].kind,
            ),
{
    assert forall|k: int| 0 <= k < adds.len() implies #[trigger] adds[k] is AddFile by {}
    lemma_assembly_phases(c, adds, mods, ops);
    let dirs = op_paths(ops_of_phase(ops, 4));
    let files = op_paths(ops_of_phase(ops, 3));
    lemma_bulk_deletion_complete(dirs, files);
    assert forall|i: int| #[trigger] only_in(new, old, i, EntryKind::Dir) implies path_views(plan.create_dirs@).contains(
        new[i].relative_path@,
    ) by {
        lemma_only_in_is_listed(c.dirs_to_create@, new, old, EntryKind::Dir, i);
        lemma_contains_by_multiset(path_views(c.dirs_to_create@), op_paths(ops_of_phase(ops, 0)), new[i].relative_path@);
    }
    assert forall|i: int| #[trigger] only_in(new, old, i, EntryKind::File) implies exists|k: int|
        0 <= k < plan.add_files@.len() && (#[trigger] plan.add_files@[k]).spec_path() == new[i].relative_path@ by {
        assert(c.files_to_add@.contains(i as usize));
        let k = choose|k: int| 0 <= k < c.files_to_add@.len() && c.files_to_add@[k] == i as usize;
        assert(plan.add_files@[k].spec_path() == new[i].relative_path@);
    }
    assert forall|i: int|
        0 <= i < old.len() && !has_path_of_kind(new, #[trigger] old[i].relative_path@, old[i].kind)
            implies removed_with(path_views(plan.root_deleted_dirs@), old[i].relative_path@)
            || path_views(plan.orphan_delete_files@).contains(old[i].relative_path@) by {
        let p = old[i].relative_path@;
        if old[i].kind == EntryKind::Dir {
            lemma_only_in_is_listed(c.dirs_to_delete@, old, new, EntryKind::Dir, i);
            lemma_contains_by_multiset(path_views(c.dirs_to_delete@), dirs, p);
            let j = choose|j: int| 0 <= j < dirs.len() && dirs[j] == p;
            assert(removed_with(root_dirs(dirs), dirs[j]));
        } else {
            lemma_only_in_is_listed(c.files_to_delete@, old, new, EntryKind::File, i);
            let j = choose|j: int| 0 <= j < files.len() && files[j] == p;
            assert(removed_with(root_dirs(dirs), files[j]) || orphan_files(files, dirs).contains(files[j]));
        }
    }
    assert forall|i: int|
        0 <= i < new.len() && (removed_with(
            path_views(plan.root_deleted_dirs@),
            #[trigger] new[i].relative_path@,
        ) || path_views(plan.orphan_delete_files@).contains(new[i].relative_path@)) implies only_in(
            new,
            old,
            i,
            new[i].kind,
        ) by {
        lemma_new_paths_kept(old, new, c, dirs, files, i);
    }
}

} // verus!
