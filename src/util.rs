//! Directory entries, content hashing and the path helpers shared by builder and applier.
use std::collections::HashMap;
use vstd::prelude::*;
use vstd::std_specs::hash::group_hash_axioms;
use vstd::utf8::encode_utf8;

verus! {

#[derive(Debug, Clone, Copy, PartialEq, Eq, Structural)]
pub enum EntryKind {
    File,
    Dir,
}

/// One entry of a directory walk.
#[derive(Debug, Clone)]
pub struct DirEntry {
    /// Path below the walked root, `/`-separated.
    pub relative_path: String,
    pub kind: EntryKind,
    /// File size in bytes (0 for directories).
    pub size: u64,
}

/// The UTF-8 bytes of a path.
pub open spec fn path_bytes(p: Seq<char>) -> Seq<u8> {
    encode_utf8(p)
}

/// A component of `b` starts at `i`.
pub open spec fn starts_component(b: Seq<u8>, i: int) -> bool {
    i == 0 || b[i - 1] == 0x2f
}

/// A component of `b` ends right before `k`.
pub open spec fn ends_component(b: Seq<u8>, k: int) -> bool {
    k == b.len() || b[k] == 0x2f
}

/// Nothing wrong is found at byte `i` of `b`: a `/` there has a non-`/` byte on each side,
/// and no component `.` or `..` starts there.
pub open spec fn path_ok_at(b: Seq<u8>, i: int) -> bool {
    &&& b[i] == 0x2f ==> 0 < i && i + 1 < b.len() && b[i + 1] != 0x2f
    &&& starts_component(b, i) && b[i] == 0x2e ==> {
        &&& !ends_component(b, i + 1)
        &&& !(b[i + 1] == 0x2e && ends_component(b, i + 2))
    }
}

/// The wire convention for a path: non-empty, no leading or trailing `/`, no empty
/// component and no `.` or `..` component.
pub open spec fn valid_wire_path(b: Seq<u8>) -> bool {
    &&& b.len() > 0
    &&& forall|i: int| 0 <= i < b.len() ==> #[trigger] path_ok_at(b, i)
}

/// `d` names a directory above `f`: `f` is `d`, a `/`, then more.
pub open spec fn is_ancestor_path(d: Seq<u8>, f: Seq<u8>) -> bool {
    &&& d.len() < f.len()
    &&& f[d.len() as int] == 0x2f
    &&& f.subrange(0, d.len() as int) == d
}

/// `d` names the directory right above `f`: no `/` follows it in `f`.
pub open spec fn is_parent_path(d: Seq<u8>, f: Seq<u8>) -> bool {
    &&& is_ancestor_path(d, f)
    &&& forall|k: int| d.len() < k < f.len() ==> f[k] != 0x2f
}

/// The bytes of a path.
pub fn path_as_bytes(p: &String) -> (r: &[u8])
    ensures
        r@ == path_bytes(p@),
{
    p.as_str().as_bytes()
}

/// The 32-byte BLAKE3 digest of a byte sequence.
pub uninterp spec fn blake3_of(data: Seq<u8>) -> Seq<u8>;

/// Relies on `blake3::hash`: the BLAKE3 digest of `data`, which depends on the bytes alone.
#[verifier::external_body]
pub fn hash_bytes(data: &[u8]) -> (r: [u8; 32])
    ensures
        r@ == blake3_of(data@),
{
    *blake3::hash(data).as_bytes()
}

/// An owned copy of `b`.
pub fn bytes_to_vec(b: &[u8]) -> (r: Vec<u8>)
    ensures
        r@ == b@,
{
    let mut v: Vec<u8> = Vec::with_capacity(b.len());
    v.extend_from_slice(b);
    v
}

/// Whether two byte sequences are equal.
pub fn same_bytes(x: &[u8], y: &[u8]) -> (r: bool)
    ensures
        r == (x@ == y@),
{
    if x.len() != y.len() {
        return false;
    }
    let mut i: usize = 0;
    while i < x.len()
        invariant
            i <= x@.len(),
            x@.len() == y@.len(),
            forall|j: int| 0 <= j < i ==> x@[j] == y@[j],
        decreases x@.len() - i,
    {
        if x[i] != y[i] {
            return false;
        }
        i = i + 1;
    }
    proof {
        assert(x@ =~= y@);
    }
    true
}

/// Whether `b` follows the wire convention for paths.
pub fn is_valid_wire_path(b: &[u8]) -> (r: bool)
    ensures
        r == valid_wire_path(b@),
{
    let n = b.len();
    if n == 0 {
        return false;
    }
    let mut i: usize = 0;
    while i < n
        invariant
            n == b@.len(),
            i <= n,
            forall|j: int| 0 <= j < i ==> #[trigger] path_ok_at(b@, j),
        decreases n - i,
    {
        let c = b[i];
        if c == 0x2f && (i == 0 || i + 1 >= n || b[i + 1] == 0x2f) {
            assert(!path_ok_at(b@, i as int));
            return false;
        }
        if (i == 0 || b[i - 1] == 0x2f) && c == 0x2e {
            let end1 = i + 1 == n || b[i + 1] == 0x2f;
            let dot_dot = i + 1 < n && b[i + 1] == 0x2e && (i + 2 == n || b[i + 2] == 0x2f);
            if end1 || dot_dot {
                assert(!path_ok_at(b@, i as int));
                return false;
            }
        }
        assert(path_ok_at(b@, i as int));
        i = i + 1;
    }
    true
}

/// `a` sorts strictly before `b`: lexicographic order on the characters, a proper prefix
/// first.
pub open spec fn path_lt(a: Seq<char>, b: Seq<char>) -> bool {
    exists|k: int|
        0 <= k <= a.len() && k <= b.len() && a.subrange(0, k) == b.subrange(0, k) && ((k == a.len()
            && k < b.len()) || (k < a.len() && k < b.len() && (#[trigger] a[k] as u32) < (
        b[k] as u32)))
}

/// The characters of each path, in order.
pub open spec fn path_views(v: Seq<String>) -> Seq<Seq<char>> {
    v.map_values(|s: String| s@)
}

/// Relies on `slice::sort` over `Ord for String`, which orders lexicographically by the
/// UTF-8 bytes, the same order as by the characters.
#[verifier::external_body]
fn sort_strings(v: &mut Vec<String>)
    ensures
        path_views(final(v)@).to_multiset() == path_views(old(v)@).to_multiset(),
        final(v)@.len() == old(v)@.len(),
        forall|i: int, j: int|
            0 <= i < j < final(v)@.len() ==> !path_lt(final(v)@[j]@, final(v)@[i]@),
{
    v.sort();
}

/// Sorts directory paths so that each parent comes before its children.
pub fn sort_dirs_parent_first(dirs: &mut Vec<String>)
    ensures
        path_views(final(dirs)@).to_multiset() == path_views(old(dirs)@).to_multiset(),
        final(dirs)@.len() == old(dirs)@.len(),
        forall|i: int, j: int|
            0 <= i < j < final(dirs)@.len() ==> !path_lt(final(dirs)@[j]@, final(dirs)@[i]@),
{
    sort_strings(dirs);
}

/// Sorts directory paths so that each child comes before its parent.
pub fn sort_dirs_deepest_first(dirs: &mut Vec<String>)
    ensures
        path_views(final(dirs)@).to_multiset() == path_views(old(dirs)@).to_multiset(),
        final(dirs)@.len() == old(dirs)@.len(),
        forall|i: int, j: int|
            0 <= i < j < final(dirs)@.len() ==> !path_lt(final(dirs)@[i]@, final(dirs)@[j]@),
{
    sort_strings(dirs);
    let ghost sorted = dirs@;
    let mut rev: Vec<String> = Vec::with_capacity(dirs.len());
    let mut k: usize = dirs.len();
    while k > 0
        invariant
            k <= sorted.len(),
            dirs@ == sorted,
            rev@.len() == sorted.len() - k,
            forall|j: int| 0 <= j < rev@.len() ==> #[trigger] rev@[j] == sorted[sorted.len() - 1 - j],
        decreases k,
    {
        k = k - 1;
        rev.push(dirs[k].clone());
    }
    proof {
        assert(rev@ =~= sorted.reverse());
        assert(path_views(rev@) =~= path_views(sorted).reverse());
        path_views(sorted).lemma_reverse_to_multiset();
    }
    *dirs = rev;
}

/// `table` lists under each key exactly the positions of `keys` that hold it.
pub open spec fn key_index_of(table: Map<u32, Vec<usize>>, keys: Seq<u32>) -> bool {
    &&& forall|k: u32, j: int|
        #![trigger table[k]@[j]]
        table.contains_key(k) && 0 <= j < table[k]@.len() ==> {
            &&& table[k]@[j] < keys.len()
            &&& keys[table[k]@[j] as int] == k
        }
    &&& forall|i: int|
        0 <= i < keys.len() ==> table.contains_key(#[trigger] keys[i]) && table[keys[i]]@.contains(i as usize)
}

/// Groups the positions of `keys` by key.
pub fn index_by_key(keys: &Vec<u32>) -> (table: HashMap<u32, Vec<usize>>)
    ensures
        key_index_of(table@, keys@),
{
    broadcast use group_hash_axioms;

    let mut table: HashMap<u32, Vec<usize>> = HashMap::with_capacity(keys.len());
    let mut idx: usize = 0;
    while idx < keys.len()
        invariant
            idx <= keys@.len(),
            forall|k: u32, j: int|
                #![trigger table@[k]@[j]]
                table@.contains_key(k) && 0 <= j < table@[k]@.len() ==> {
                    &&& table@[k]@[j] < idx
                    &&& keys@[table@[k]@[j] as int] == k
                },
            forall|i: int|
                0 <= i < idx ==> table@.contains_key(#[trigger] keys@[i])
                    && table@[keys@[i]]@.contains(i as usize),
        decreases keys@.len() - idx,
    {
        let key = keys[idx];
        let ghost before = table@;
        let mut list = match table.remove(&key) {
            Some(v) => v,
            None => Vec::new(),
        };
        let ghost prev = list@;
        assert(before.contains_key(key) ==> prev == before[key]@);
        assert(!before.contains_key(key) ==> prev.len() == 0);
        list.push(idx);
        table.insert(key, list);
        proof {
            assert forall|k: u32, j: int|
                #![trigger table@[k]@[j]]
                table@.contains_key(k) && 0 <= j < table@[k]@.len() implies {
                    &&& table@[k]@[j] < idx + 1
                    &&& keys@[table@[k]@[j] as int] == k
                } by {
                if k != key {
                    assert(table@[k] == before[k]);
                    assert(before[k]@[j] == table@[k]@[j]);
                } else if j < prev.len() {
                    assert(table@[k]@[j] == before[k]@[j]);
                }
            }
            assert forall|i: int|
                0 <= i < idx + 1 implies table@.contains_key(#[trigger] keys@[i])
                && table@[keys@[i]]@.contains(i as usize) by {
                let ki = keys@[i];
                if i == idx {
                    assert(table@[key]@[prev.len() as int] == idx);
                } else if ki != key {
                    assert(table@[ki] == before[ki]);
                } else {
                    let w = choose|w: int| 0 <= w < before[ki]@.len() && before[ki]@[w] == i as usize;
                    assert(table@[key]@[w] == i as usize);
                }
            }
        }
        idx = idx + 1;
    }
    table
}

/// The lookup key of a byte string: the first four bytes of its BLAKE3 digest.
pub open spec fn bytes_key(b: Seq<u8>) -> u32 {
    let h = blake3_of(b);
    (((h[0] as int * 256 + h[1] as int) * 256 + h[2] as int) * 256 + h[3] as int) as u32
}

/// The lookup key of a path: that of its UTF-8 bytes.
pub open spec fn path_key(p: Seq<char>) -> u32 {
    bytes_key(path_bytes(p))
}

/// The lookup key of each path.
pub open spec fn string_keys(v: Seq<String>) -> Seq<u32> {
    v.map_values(|s: String| path_key(s@))
}

/// The lookup key of each entry's path.
pub open spec fn entry_keys(entries: Seq<DirEntry>) -> Seq<u32> {
    entries.map_values(|e: DirEntry| path_key(e.relative_path@))
}

/// The lookup key of `p`.
pub fn path_key_of(p: &String) -> (r: u32)
    ensures
        r == path_key(p@),
{
    bytes_key_of(path_as_bytes(p))
}

/// The lookup key of `b`.
pub fn bytes_key_of(b: &[u8]) -> (r: u32)
    ensures
        r == bytes_key(b@),
{
    let h = hash_bytes(b);
    let b0 = h[0] as u32;
    let b1 = h[1] as u32;
    let b2 = h[2] as u32;
    let b3 = h[3] as u32;
    assert(((b0 * 256 + b1) * 256 + b2) * 256 + b3 <= 0xFFFF_FFFF) by (nonlinear_arith)
        requires
            b0 < 256,
            b1 < 256,
            b2 < 256,
            b3 < 256,
    ;
    ((b0 * 256 + b1) * 256 + b2) * 256 + b3
}

/// Groups the positions of `entries` by the lookup key of their paths.
pub fn index_paths(entries: &Vec<DirEntry>) -> (table: HashMap<u32, Vec<usize>>)
    ensures
        key_index_of(table@, entry_keys(entries@)),
{
    let mut keys: Vec<u32> = Vec::with_capacity(entries.len());
    let mut i: usize = 0;
    while i < entries.len()
        invariant
            i <= entries@.len(),
            keys@.len() == i,
            forall|j: int| 0 <= j < i ==> #[trigger] keys@[j] == path_key(entries@[j].relative_path@),
        decreases entries@.len() - i,
    {
        keys.push(path_key_of(&entries[i].relative_path));
        i = i + 1;
    }
    proof {
        assert(keys@ =~= entry_keys(entries@));
    }
    index_by_key(&keys)
}

/// Groups the positions of `paths` by lookup key.
pub fn index_strings(paths: &Vec<String>) -> (table: HashMap<u32, Vec<usize>>)
    ensures
        key_index_of(table@, string_keys(paths@)),
{
    let mut keys: Vec<u32> = Vec::with_capacity(paths.len());
    let mut i: usize = 0;
    while i < paths.len()
        invariant
            i <= paths@.len(),
            keys@.len() == i,
            forall|j: int| 0 <= j < i ==> #[trigger] keys@[j] == path_key(paths@[j]@),
        decreases paths@.len() - i,
    {
        keys.push(path_key_of(&paths[i]));
        i = i + 1;
    }
    proof {
        assert(keys@ =~= string_keys(paths@));
    }
    index_by_key(&keys)
}

/// Whether some path of `paths` has the UTF-8 bytes `b`, looked up through `index`.
pub fn contains_path_bytes(paths: &Vec<String>, index: &HashMap<u32, Vec<usize>>, b: &[u8]) -> (r: bool)
    requires
        key_index_of(index@, string_keys(paths@)),
    ensures
        r == exists|k: int| 0 <= k < paths@.len() && path_bytes(#[trigger] paths@[k]@) == b@,
{
    broadcast use group_hash_axioms;

    let n = paths.len();
    let key = bytes_key_of(b);
    let bucket = match index.get(&key) {
        Some(v) => v,
        None => {
            proof {
                if exists|k: int| 0 <= k < paths@.len() && path_bytes(#[trigger] paths@[k]@) == b@ {
                    let k = choose|k: int| 0 <= k < paths@.len() && path_bytes(#[trigger] paths@[k]@) == b@;
                    assert(string_keys(paths@)[k] == key);
                }
            }
            return false;
        },
    };
    let mut c: usize = 0;
    while c < bucket.len()
        invariant
            c <= bucket@.len(),
            n == paths@.len(),
            index@.contains_key(key),
            bucket@ == index@[key]@,
            key == bytes_key(b@),
            key_index_of(index@, string_keys(paths@)),
            forall|w: int| 0 <= w < c ==> path_bytes(paths@[#[trigger] bucket@[w] as int]@) != b@,
        decreases bucket@.len() - c,
    {
        let i = bucket[c];
        assert(i == index@[key]@[c as int]);
        if same_bytes(path_as_bytes(&paths[i]), b) {
            return true;
        }
        c = c + 1;
    }
    proof {
        if exists|k: int| 0 <= k < paths@.len() && path_bytes(#[trigger] paths@[k]@) == b@ {
            let k = choose|k: int| 0 <= k < paths@.len() && path_bytes(#[trigger] paths@[k]@) == b@;
            assert(string_keys(paths@)[k] == key);
            assert(bucket@.contains(k as usize));
            let w = choose|w: int| 0 <= w < bucket@.len() && bucket@[w] == k as usize;
            assert((k as usize) as int == k);
            assert(path_bytes(paths@[bucket@[w] as int]@) != b@);
        }
    }
    false
}

/// Whether no entry before `i` has the path of entry `i`, looked up through `index`.
fn first_with_path(entries: &Vec<DirEntry>, index: &HashMap<u32, Vec<usize>>, i: usize) -> (r: bool)
    requires
        i < entries@.len(),
        key_index_of(index@, entry_keys(entries@)),
    ensures
        r == forall|j: int| 0 <= j < i ==> (#[trigger] entries@[j]).relative_path@ != entries@[i as int].relative_path@,
{
    broadcast use group_hash_axioms;

    let p = &entries[i].relative_path;
    let key = path_key_of(p);
    proof {
        assert(entry_keys(entries@)[i as int] == key);
    }
    let bucket = match index.get(&key) {
        Some(b) => b,
        None => {
            return true;
        },
    };
    let mut c: usize = 0;
    while c < bucket.len()
        invariant
            c <= bucket@.len(),
            i < entries@.len(),
            p@ == entries@[i as int].relative_path@,
            index@.contains_key(key),
            bucket@ == index@[key]@,
            key == path_key(p@),
            key_index_of(index@, entry_keys(entries@)),
            forall|w: int|
                0 <= w < c && bucket@[w] < i ==> entries@[#[trigger] bucket@[w] as int].relative_path@ != p@,
        decreases bucket@.len() - c,
    {
        let j = bucket[c];
        assert(j == index@[key]@[c as int]);
        if j < i && entries[j].relative_path == *p {
            return false;
        }
        c = c + 1;
    }
    proof {
        assert forall|j: int| 0 <= j < i implies (#[trigger] entries@[j]).relative_path@ != entries@[i as int].relative_path@ by {
            if entries@[j].relative_path@ == p@ {
                assert(entry_keys(entries@)[j] == key);
                assert(bucket@.contains(j as usize));
                let w = choose|w: int| 0 <= w < bucket@.len() && bucket@[w] == j as usize;
                assert((j as usize) as int == j);
            }
        }
    }
    true
}

/// The distinct relative paths of `entries`, sorted.
pub fn path_set(entries: &Vec<DirEntry>) -> (r: Vec<String>)
    ensures
        path_views(r@).no_duplicates(),
        forall|i: int, j: int| 0 <= i < j < r@.len() ==> !path_lt(r@[j]@, r@[i]@),
        forall|x: Seq<char>|
            path_views(r@).contains(x) <==> exists|i: int| 0 <= i < entries@.len() && (#[trigger] entries@[i]).relative_path@ == x,
{
    let index = index_paths(entries);
    let mut kept: Vec<String> = Vec::new();
    let mut i: usize = 0;
    while i < entries.len()
        invariant
            i <= entries@.len(),
            key_index_of(index@, entry_keys(entries@)),
            path_views(kept@).no_duplicates(),
            forall|x: Seq<char>|
                path_views(kept@).contains(x) <==> exists|j: int| 0 <= j < i && (#[trigger] entries@[j]).relative_path@ == x,
        decreases entries@.len() - i,
    {
        let ghost before = path_views(kept@);
        if first_with_path(entries, &index, i) {
            kept.push(entries[i].relative_path.clone());
            proof {
                let x = entries@[i as int].relative_path@;
                assert(path_views(kept@) =~= before.push(x));
                assert(!before.contains(x));
                assert forall|a: int, b: int|
                    0 <= a < path_views(kept@).len() && 0 <= b < path_views(kept@).len() && a != b
                        implies path_views(kept@)[a] != path_views(kept@)[b] by {
                    if a == before.len() as int {
                        assert(before[b] == path_views(kept@)[b]);
                    } else if b == before.len() as int {
                        assert(before[a] == path_views(kept@)[a]);
                    }
                }
            }
        }
        proof {
            let x0 = entries@[i as int].relative_path@;
            assert forall|x: Seq<char>|
                path_views(kept@).contains(x) <==> exists|j: int| 0 <= j < i + 1 && (#[trigger] entries@[j]).relative_path@ == x by {
                if path_views(kept@).contains(x) {
                    let k = choose|k: int| 0 <= k < path_views(kept@).len() && path_views(kept@)[k] == x;
                    if k < before.len() {
                        assert(before[k] == x);
                        assert(before.contains(x));
                    } else {
                        assert(x == x0);
                    }
                }
                if exists|j: int| 0 <= j < i + 1 && (#[trigger] entries@[j]).relative_path@ == x {
                    let j = choose|j: int| 0 <= j < i + 1 && (#[trigger] entries@[j]).relative_path@ == x;
                    if j < i {
                        assert(before.contains(x));
                        let k = choose|k: int| 0 <= k < before.len() && before[k] == x;
                        assert(path_views(kept@)[k] == x);
                    } else if x == x0 && !before.contains(x) {
                        assert(path_views(kept@)[before.len() as int] == x);
                    }
                }
            }
        }
        i = i + 1;
    }
    let ghost unsorted = path_views(kept@);
    assert(forall|x: Seq<char>|
        unsorted.contains(x) <==> exists|j: int| 0 <= j < entries@.len() && (#[trigger] entries@[j]).relative_path@ == x);
    sort_strings(&mut kept);
    proof {
        unsorted.lemma_multiset_has_no_duplicates();
        unsorted.to_multiset_ensures();
        path_views(kept@).to_multiset_ensures();
        path_views(kept@).lemma_multiset_has_no_duplicates_conv();
        assert forall|x: Seq<char>|
            path_views(kept@).contains(x) <==> exists|i: int| 0 <= i < entries@.len() && (#[trigger] entries@[i]).relative_path@ == x by {
            assert(path_views(kept@).contains(x) <==> path_views(kept@).to_multiset().count(x) > 0);
            assert(unsorted.contains(x) <==> unsorted.to_multiset().count(x) > 0);
            assert(unsorted.contains(x) <==> exists|j: int| 0 <= j < entries@.len() && (#[trigger] entries@[j]).relative_path@ == x);
        }
    }
    kept
}

} // verus!
