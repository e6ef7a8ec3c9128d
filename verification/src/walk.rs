//! Copying a directory tree: from what a walk of the source found, the
//! uploads and folder creations to make, in order.

use vstd::prelude::*;
use crate::order::{compare_paths, lemma_path_before_strict_total, path_before, Comparison};
use crate::path::{components, join_dropbox_path, joined_dropbox_path, split_components};

verus! {

/// What the metadata of a walked entry says it is.
#[derive(Clone, Copy, Debug, PartialEq, Eq)]
pub enum EntryKind {
    Directory,
    File,
    /// Neither file nor directory.
    Other,
    /// Its metadata could not be read.
    Unreadable,
    /// The walk itself failed here (for instance a directory it could not
    /// list); an error, whatever its depth or path.
    WalkFailed,
}

/// The path of a walked entry relative to the source directory.
#[derive(Debug)]
pub struct RelPath {
    /// The path as text (lossy where it is not valid Unicode): what Dropbox
    /// paths are built from.
    pub text: String,
    /// The path's own bytes: what paths are compared and told apart by.
    pub bytes: Vec<u8>,
}

/// One entry that the walk of the source directory yielded.
#[derive(Debug)]
pub struct WalkEntry {
    /// How far below the source directory it is; 0 for the source itself.
    pub depth: usize,
    /// Its path relative to the source directory; `None` when it is not
    /// below the source.
    pub rel: Option<RelPath>,
    pub kind: EntryKind,
}

/// The relative path of an entry, as text.
pub open spec fn rel_text(e: WalkEntry) -> Seq<char> {
    e.rel.unwrap().text@
}

/// The relative path of an entry, as bytes.
pub open spec fn rel_bytes(e: WalkEntry) -> Seq<u8> {
    e.rel.unwrap().bytes@
}

/// Whether the copy looks at an entry: it is below the source and has a
/// relative path.
pub open spec fn is_considered(e: WalkEntry) -> bool {
    e.depth != 0 && e.rel is Some
}

pub open spec fn is_dir_entry(e: WalkEntry) -> bool {
    is_considered(e) && e.kind is Directory
}

pub open spec fn is_file_entry(e: WalkEntry) -> bool {
    is_considered(e) && e.kind is File
}

pub open spec fn is_unreadable_entry(e: WalkEntry) -> bool {
    is_considered(e) && e.kind is Unreadable
}

/// Whether the walk itself failed at an entry.
pub open spec fn is_walk_failure(e: WalkEntry) -> bool {
    e.kind is WalkFailed
}

/// The components of an entry's relative path, as bytes: two paths are the
/// same path when these are equal.
pub open spec fn key_of(e: WalkEntry) -> Seq<Seq<u8>> {
    components(rel_bytes(e))
}

/// Whether entry `j` is a directory and no directory before it is the same path.
pub open spec fn is_first_dir(entries: Seq<WalkEntry>, j: int) -> bool {
    &&& 0 <= j < entries.len()
    &&& is_dir_entry(entries[j])
    &&& forall|k: int|
        0 <= k < j && is_dir_entry(#[trigger] entries[k]) ==> key_of(entries[k]) != key_of(
            entries[j],
        )
}

/// The components of the path of entry `x`.
pub open spec fn key_at(entries: Seq<WalkEntry>, x: usize) -> Seq<Seq<u8>> {
    key_of(entries[x as int])
}

/// Whether the entries listed in `f` are strictly in `path_before` order of
/// their paths' components.
pub open spec fn is_strictly_ordered(entries: Seq<WalkEntry>, f: Seq<usize>) -> bool {
    forall|i: int, j: int|
        0 <= i < j < f.len() ==> path_before(key_at(entries, #[trigger] f[i]), key_at(entries, #[trigger] f[j]))
}

/// Whether every entry listed in `f` is a directory first found there.
pub open spec fn lists_only_first_dirs(entries: Seq<WalkEntry>, f: Seq<usize>) -> bool {
    forall|i: int| 0 <= i < f.len() ==> is_first_dir(entries, #[trigger] f[i] as int)
}

/// Whether `f` lists every directory entry first found there.
pub open spec fn lists_every_first_dir(entries: Seq<WalkEntry>, f: Seq<usize>) -> bool {
    forall|j: int| #[trigger] is_first_dir(entries, j) ==> f.contains(j as usize)
}

/// Whether `f` lists, by their walk indices, the folders to create in the
/// order to create them: one per distinct directory path (the entry where
/// the walk first gave it), by number of components and then in path order.
pub open spec fn is_folder_order(entries: Seq<WalkEntry>, f: Seq<usize>) -> bool {
    &&& is_strictly_ordered(entries, f)
    &&& lists_only_first_dirs(entries, f)
    &&& lists_every_first_dir(entries, f)
}

/// The walk indices of the folders to create, in order.
pub open spec fn folder_order(entries: Seq<WalkEntry>) -> Seq<usize> {
    choose|f: Seq<usize>| is_folder_order(entries, f)
}

/// Inserting into a sequence adds exactly the inserted value to what it contains.
proof fn lemma_insert_contains<A>(s: Seq<A>, j: int, v: A)
    requires
        0 <= j <= s.len(),
    ensures
        forall|x: A| #[trigger] s.insert(j, v).contains(x) <==> s.contains(x) || x == v,
{
    let t = s.insert(j, v);
    assert forall|x: A| #[trigger] t.contains(x) <==> s.contains(x) || x == v by {
        if t.contains(x) {
            let i = choose|i: int| 0 <= i < t.len() && t[i] == x;
            if i < j {
                assert(s[i] == x);
            } else if i > j {
                assert(s[i - 1] == x);
            }
        }
        if s.contains(x) {
            let i = choose|i: int| 0 <= i < s.len() && s[i] == x;
            if i < j {
                assert(t[i] == x);
            } else {
                assert(t[i + 1] == x);
            }
        }
        if x == v {
            assert(t[j] == x);
        }
    }
}

/// A list of path components strictly in `path_before` order, next to a
/// list of the same length.
pub open spec fn folder_table_wf(kv: Seq<Seq<Seq<u8>>>, idx: Seq<usize>) -> bool {
    &&& kv.len() == idx.len()
    &&& forall|i: int, j: int| 0 <= i < j < kv.len() ==> path_before(#[trigger] kv[i], #[trigger] kv[j])
}

/// Adds the folder of walk entry `entry`, whose path has components `k`, to
/// the table unless a folder with the same components is there; says whether
/// it was added.
fn insert_folder(
    keys: &mut Vec<Vec<Vec<u8>>>,
    idxs: &mut Vec<usize>,
    k: Vec<Vec<u8>>,
    entry: usize,
) -> (inserted: bool)
    requires
        folder_table_wf(old(keys).deep_view(), old(idxs)@),
    ensures
        folder_table_wf(final(keys).deep_view(), final(idxs)@),
        inserted ==> !old(keys).deep_view().contains(k.deep_view()) && exists|j: int|
            0 <= j <= old(keys).deep_view().len() && final(keys).deep_view() == old(
                keys,
            ).deep_view().insert(j, k.deep_view()) && final(idxs)@ == old(idxs)@.insert(j, entry),
        !inserted ==> old(keys).deep_view().contains(k.deep_view()) && final(keys).deep_view()
            == old(keys).deep_view() && final(idxs)@ == old(idxs)@,
{
    let ghost kk = k.deep_view();
    let ghost old_kv = keys.deep_view();
    let ghost old_idx = idxs@;
    let mut j: usize = 0;
    let mut found = false;
    while j < keys.len()
        invariant
            j <= keys@.len(),
            old_kv == keys.deep_view(),
            kk == k.deep_view(),
            forall|i: int| 0 <= i < j ==> path_before(#[trigger] old_kv[i], kk),
            found ==> j < keys@.len() && old_kv[j as int] == kk,
        ensures
            j <= keys@.len(),
            forall|i: int| 0 <= i < j ==> path_before(#[trigger] old_kv[i], kk),
            found ==> j < keys@.len() && old_kv[j as int] == kk,
            !found ==> j == keys@.len() || path_before(kk, old_kv[j as int]),
        decreases keys@.len() - j,
    {
        let c = compare_paths(&keys[j], &k);
        assert(old_kv[j as int] == keys@[j as int].deep_view());
        match c {
            Comparison::Before => {
                j = j + 1;
            },
            Comparison::Same => {
                found = true;
                break;
            },
            Comparison::After => {
                break;
            },
        }
    }
    if found {
        assert(old_kv.contains(kk));
        return false;
    }
    proof {
        assert forall|i: int| 0 <= i < old_kv.len() implies old_kv[i] != kk by {
            lemma_path_before_strict_total(old_kv[i], kk, kk);
            if i >= j {
                lemma_path_before_strict_total(kk, old_kv[j as int], old_kv[i]);
                lemma_path_before_strict_total(kk, kk, kk);
            }
        }
    }
    keys.insert(j, k);
    idxs.insert(j, entry);
    proof {
        let jj = j as int;
        let kv = keys.deep_view();
        assert(kv =~= old_kv.insert(jj, kk));
        assert forall|a: int, b: int| 0 <= a < b < kv.len() implies path_before(#[trigger] kv[a], #[trigger] kv[b]) by {
            if a < jj && b > jj {
                if b - 1 > jj {
                    lemma_path_before_strict_total(kk, old_kv[jj], old_kv[b - 1]);
                }
                lemma_path_before_strict_total(old_kv[a], kk, old_kv[b - 1]);
            } else if a == jj && b - 1 > jj {
                lemma_path_before_strict_total(kk, old_kv[jj], old_kv[b - 1]);
            }
        }
    }
    true
}

/// The walk indices of the folders to create for the directories the walk
/// found: each distinct path once, at the entry where the walk first gave
/// it, by depth and then in path order.
pub fn folders_to_create(entries: &Vec<WalkEntry>) -> (f: Vec<usize>)
    ensures
        is_folder_order(entries@, f@),
{
    let ghost es = entries@;
    let mut keys: Vec<Vec<Vec<u8>>> = Vec::new();
    let mut idxs: Vec<usize> = Vec::new();
    let mut p: usize = 0;
    assert(keys.deep_view() =~= Seq::<Seq<Seq<u8>>>::empty());
    while p < entries.len()
        invariant
            es == entries@,
            p <= es.len(),
            folder_table_wf(keys.deep_view(), idxs@),
            forall|i: int| 0 <= i < idxs@.len() ==> #[trigger] keys.deep_view()[i] == key_at(es, idxs@[i]),
            forall|x: usize| #[trigger] idxs@.contains(x) ==> x < p && is_first_dir(es, x as int),
            forall|w: int| 0 <= w < p && is_first_dir(es, w) ==> idxs@.contains(#[trigger] (w as usize)),
            forall|w: int| 0 <= w < p && #[trigger] is_dir_entry(es[w]) ==> keys.deep_view().contains(key_of(es[w])),
        decreases es.len() - p,
    {
        let e = &entries[p];
        let is_dir = match e.kind {
            EntryKind::Directory => true,
            _ => false,
        };
        let ghost old_kv = keys.deep_view();
        let ghost old_idx = idxs@;
        if e.depth != 0 && e.rel.is_some() && is_dir {
            let rel: &RelPath = e.rel.as_ref().unwrap();
            let k = split_components(&rel.bytes);
            let ghost kk = k.deep_view();
            assert(kk == key_of(es[p as int]));
            assert(is_dir_entry(es[p as int]));
            let inserted = insert_folder(&mut keys, &mut idxs, k, p);
            proof {
                let pp = p as int;
                if inserted {
                    let j = choose|j: int| 0 <= j <= old_kv.len() && keys.deep_view() == old_kv.insert(j, kk) && idxs@ == old_idx.insert(j, p);
                    lemma_insert_contains(old_kv, j, kk);
                    lemma_insert_contains(old_idx, j, p);
                    assert(is_first_dir(es, pp)) by {
                        assert forall|kx: int| 0 <= kx < pp && is_dir_entry(#[trigger] es[kx]) implies key_of(es[kx]) != key_of(es[pp]) by {
                            assert(old_kv.contains(key_of(es[kx])));
                        }
                    }
                    assert forall|i: int| 0 <= i < idxs@.len() implies #[trigger] keys.deep_view()[i] == key_at(es, idxs@[i]) by {
                        if i < j {
                            assert(keys.deep_view()[i] == old_kv[i] && idxs@[i] == old_idx[i]);
                        } else if i > j {
                            assert(keys.deep_view()[i] == old_kv[i - 1] && idxs@[i] == old_idx[i - 1]);
                        }
                    }
                    assert(idxs@.contains(p));
                    assert(keys.deep_view().contains(key_of(es[pp])));
                } else {
                    let i = choose|i: int| 0 <= i < old_kv.len() && old_kv[i] == kk;
                    assert(old_idx.contains(old_idx[i]));
                    let w = old_idx[i] as int;
                    assert(is_first_dir(es, w) && w < pp);
                    assert(key_of(es[w]) == kk);
                    assert(!is_first_dir(es, pp)) by {
                        assert(is_dir_entry(es[w]));
                    }
                    assert(keys.deep_view().contains(key_of(es[pp])));
                }
            }
        } else {
            assert(!is_dir_entry(es[p as int]));
        }
        p = p + 1;
    }
    proof {
        let f = idxs@;
        let kv = keys.deep_view();
        assert forall|i: int, j: int| 0 <= i < j < f.len() implies path_before(key_at(es, #[trigger] f[i]), key_at(es, #[trigger] f[j])) by {
            assert(kv[i] == key_at(es, f[i]));
            assert(kv[j] == key_at(es, f[j]));
        }
        assert forall|i: int| 0 <= i < f.len() implies is_first_dir(es, #[trigger] f[i] as int) by {
            assert(f.contains(f[i]));
        }
        assert forall|j: int| #[trigger] is_first_dir(es, j) implies f.contains(j as usize) by {
            assert(0 <= j < p);
        }
    }
    idxs
}

proof fn lemma_ordered_same_members_equal(entries: Seq<WalkEntry>, f1: Seq<usize>, f2: Seq<usize>)
    requires
        is_strictly_ordered(entries, f1),
        is_strictly_ordered(entries, f2),
        forall|x: usize| f1.contains(x) <==> f2.contains(x),
    ensures
        f1 == f2,
    decreases f1.len(),
{
    if f1.len() == 0 {
        if f2.len() > 0 {
            assert(f2.contains(f2[0]));
        }
        assert(f1 =~= f2);
        return;
    }
    if f2.len() == 0 {
        assert(f1.contains(f1[0]));
    }
    assert(f1.contains(f1[0]));
    let k = choose|k: int| 0 <= k < f2.len() && f2[k] == f1[0];
    assert(f2.contains(f2[0]));
    let m = choose|m: int| 0 <= m < f1.len() && f1[m] == f2[0];
    if k > 0 {
        lemma_path_before_strict_total(key_at(entries, f2[0]), key_at(entries, f1[0]), key_at(entries, f2[0]));
        if m == 0 {
            lemma_path_before_strict_total(key_at(entries, f1[0]), key_at(entries, f1[0]), key_at(entries, f1[0]));
        }
        assert(false);
    }
    let d1 = f1.drop_first();
    let d2 = f2.drop_first();
    assert forall|x: usize| d1.contains(x) <==> d2.contains(x) by {
        if d1.contains(x) {
            let i = choose|i: int| 0 <= i < d1.len() && d1[i] == x;
            assert(f1[i + 1] == x);
            assert(f1.contains(x));
            let j = choose|j: int| 0 <= j < f2.len() && f2[j] == x;
            if j == 0 {
                lemma_path_before_strict_total(key_at(entries, f1[0]), key_at(entries, f1[0]), key_at(entries, f1[0]));
                assert(path_before(key_at(entries, f1[0]), key_at(entries, f1[i + 1])));
            }
            assert(d2[j - 1] == x);
        }
        if d2.contains(x) {
            let i = choose|i: int| 0 <= i < d2.len() && d2[i] == x;
            assert(f2[i + 1] == x);
            assert(f2.contains(x));
            let j = choose|j: int| 0 <= j < f1.len() && f1[j] == x;
            if j == 0 {
                lemma_path_before_strict_total(key_at(entries, f2[0]), key_at(entries, f2[0]), key_at(entries, f2[0]));
                assert(path_before(key_at(entries, f2[0]), key_at(entries, f2[i + 1])));
            }
            assert(d1[j - 1] == x);
        }
    }
    assert(is_strictly_ordered(entries, d1)) by {
        assert forall|i: int, j: int| 0 <= i < j < d1.len() implies path_before(key_at(entries, #[trigger] d1[i]), key_at(entries, #[trigger] d1[j])) by {
            assert(d1[i] == f1[i + 1] && d1[j] == f1[j + 1]);
        }
    }
    assert(is_strictly_ordered(entries, d2)) by {
        assert forall|i: int, j: int| 0 <= i < j < d2.len() implies path_before(key_at(entries, #[trigger] d2[i]), key_at(entries, #[trigger] d2[j])) by {
            assert(d2[i] == f2[i + 1] && d2[j] == f2[j + 1]);
        }
    }
    lemma_ordered_same_members_equal(entries, d1, d2);
    assert(f1 =~= seq![f1[0]] + d1);
    assert(f2 =~= seq![f2[0]] + d2);
}

proof fn lemma_folder_members_included(entries: Seq<WalkEntry>, f1: Seq<usize>, f2: Seq<usize>)
    requires
        lists_only_first_dirs(entries, f1),
        lists_every_first_dir(entries, f2),
    ensures
        forall|x: usize| f1.contains(x) ==> f2.contains(x),
{
    assert forall|x: usize| f1.contains(x) implies f2.contains(x) by {
        let i = choose|i: int| 0 <= i < f1.len() && f1[i] == x;
        assert(is_first_dir(entries, f1[i] as int));
        assert(f2.contains((x as int) as usize));
    }
}

/// Whether entry `j` is first among the directories with its path depends
/// only on the entries before it.
proof fn lemma_first_dir_prefix(entries: Seq<WalkEntry>, n: int, j: int)
    requires
        0 <= j < n <= entries.len(),
    ensures
        is_first_dir(entries, j) == is_first_dir(entries.take(n), j),
{
    let t = entries.take(n);
    assert(t[j] == entries[j]);
    if is_first_dir(t, j) {
        assert forall|k: int| 0 <= k < j && is_dir_entry(#[trigger] entries[k]) implies key_of(entries[k]) != key_of(entries[j]) by {
            assert(t[k] == entries[k]);
        }
    }
    if is_first_dir(entries, j) {
        assert forall|k: int| 0 <= k < j && is_dir_entry(#[trigger] t[k]) implies key_of(t[k]) != key_of(t[j]) by {
            assert(t[k] == entries[k]);
        }
    }
}

/// Whether a path with components `k` belongs at position `p` of `f`.
pub open spec fn is_insertion_point(entries: Seq<WalkEntry>, f: Seq<usize>, k: Seq<Seq<u8>>, p: int) -> bool {
    &&& 0 <= p <= f.len()
    &&& forall|i: int| 0 <= i < p ==> path_before(key_at(entries, #[trigger] f[i]), k)
    &&& forall|i: int| p <= i < f.len() ==> path_before(k, key_at(entries, #[trigger] f[i]))
}

/// In a strictly ordered list, a path whose components are not those of any
/// listed path has a place: everything before it comes before it, everything
/// from it on comes after it.
proof fn lemma_insertion_point(entries: Seq<WalkEntry>, f: Seq<usize>, k: Seq<Seq<u8>>)
    requires
        is_strictly_ordered(entries, f),
        forall|i: int| 0 <= i < f.len() ==> key_at(entries, #[trigger] f[i]) != k,
    ensures
        exists|p: int| #[trigger] is_insertion_point(entries, f, k, p),
    decreases f.len(),
{
    if f.len() == 0 {
        assert(is_insertion_point(entries, f, k, 0));
        return;
    }
    let last = f.len() - 1;
    lemma_path_before_strict_total(key_at(entries, f[last]), k, k);
    if path_before(key_at(entries, f[last]), k) {
        assert forall|i: int| 0 <= i < f.len() implies path_before(key_at(entries, #[trigger] f[i]), k) by {
            if i < last {
                lemma_path_before_strict_total(key_at(entries, f[i]), key_at(entries, f[last]), k);
            }
        }
        assert(is_insertion_point(entries, f, k, f.len() as int));
    } else {
        let d = f.drop_last();
        assert(is_strictly_ordered(entries, d)) by {
            assert forall|i: int, j: int| 0 <= i < j < d.len() implies path_before(key_at(entries, #[trigger] d[i]), key_at(entries, #[trigger] d[j])) by {
                assert(d[i] == f[i] && d[j] == f[j]);
            }
        }
        assert forall|i: int| 0 <= i < d.len() implies key_at(entries, #[trigger] d[i]) != k by {
            assert(d[i] == f[i]);
        }
        lemma_insertion_point(entries, d, k);
        let p = choose|p: int| is_insertion_point(entries, d, k, p);
        assert forall|i: int| 0 <= i < p implies path_before(key_at(entries, #[trigger] f[i]), k) by {
            assert(d[i] == f[i]);
        }
        assert forall|i: int| p <= i < f.len() implies path_before(k, key_at(entries, #[trigger] f[i])) by {
            if i < last {
                assert(d[i] == f[i]);
            }
        }
        assert(is_insertion_point(entries, f, k, p));
    }
}

/// Every walk has a folder order.
pub proof fn lemma_folder_order_exists(entries: Seq<WalkEntry>)
    requires
        entries.len() <= usize::MAX,
    ensures
        exists|f: Seq<usize>| is_folder_order(entries, f),
    decreases entries.len(),
{
    if entries.len() == 0 {
        let f = Seq::<usize>::empty();
        assert(is_folder_order(entries, f));
        return;
    }
    let n = entries.len() - 1;
    let e = entries.drop_last();
    assert(e =~= entries.take(n));
    lemma_folder_order_exists(e);
    let f0 = choose|f: Seq<usize>| is_folder_order(e, f);
    assert forall|j: int| 0 <= j < n implies is_first_dir(entries, j) == #[trigger] is_first_dir(e, j) by {
        lemma_first_dir_prefix(entries, n, j);
    }
    assert forall|i: int| 0 <= i < f0.len() implies key_at(entries, #[trigger] f0[i]) == key_at(e, f0[i]) && (f0[i] as int) < n by {
        assert(is_first_dir(e, f0[i] as int));
        assert(e[f0[i] as int] == entries[f0[i] as int]);
    }
    assert(is_strictly_ordered(entries, f0)) by {
        assert forall|a: int, b: int| 0 <= a < b < f0.len() implies path_before(key_at(entries, #[trigger] f0[a]), key_at(entries, #[trigger] f0[b])) by {
            assert(key_at(entries, f0[a]) == key_at(e, f0[a]));
            assert(key_at(entries, f0[b]) == key_at(e, f0[b]));
        }
    }
    if !is_first_dir(entries, n) {
        assert forall|i: int| 0 <= i < f0.len() implies is_first_dir(entries, #[trigger] f0[i] as int) by {
            assert(is_first_dir(e, f0[i] as int));
        }
        assert forall|j: int| #[trigger] is_first_dir(entries, j) implies f0.contains(j as usize) by {
            assert(j < n);
            assert(is_first_dir(e, j));
        }
        assert(is_folder_order(entries, f0));
        return;
    }
    let k = key_of(entries[n]);
    assert forall|i: int| 0 <= i < f0.len() implies key_at(entries, #[trigger] f0[i]) != k by {
        let j = f0[i] as int;
        assert(is_first_dir(e, j));
        assert(is_dir_entry(entries[j]));
    }
    lemma_insertion_point(entries, f0, k);
    let p = choose|p: int| is_insertion_point(entries, f0, k, p);
    let nu = n as usize;
    let f = f0.insert(p, nu);
    assert(key_at(entries, nu) == k);
    assert(is_strictly_ordered(entries, f)) by {
        assert forall|a: int, b: int| 0 <= a < b < f.len() implies path_before(key_at(entries, #[trigger] f[a]), key_at(entries, #[trigger] f[b])) by {
            if a < p && b < p {
                assert(f[a] == f0[a] && f[b] == f0[b]);
            } else if a < p && b == p {
                assert(f[a] == f0[a]);
            } else if a < p && b > p {
                assert(f[a] == f0[a] && f[b] == f0[b - 1]);
                lemma_path_before_strict_total(key_at(entries, f0[a]), k, key_at(entries, f0[b - 1]));
            } else if a == p {
                assert(f[b] == f0[b - 1]);
            } else {
                assert(f[a] == f0[a - 1] && f[b] == f0[b - 1]);
            }
        }
    }
    lemma_insert_contains(f0, p, nu);
    assert forall|i: int| 0 <= i < f.len() implies is_first_dir(entries, #[trigger] f[i] as int) by {
        if i != p {
            let i0 = if i < p { i } else { i - 1 };
            assert(f[i] == f0[i0]);
            assert(is_first_dir(e, f0[i0] as int));
        }
    }
    assert forall|j: int| #[trigger] is_first_dir(entries, j) implies f.contains(j as usize) by {
        if j < n {
            assert(is_first_dir(e, j));
            assert(f0.contains(j as usize));
        }
    }
    assert(is_folder_order(entries, f));
}

/// The folders to create are determined by the walk: two lists that both
/// meet `is_folder_order` are the same list. So `folder_order` is the one
/// such list, and it is what `folders_to_create` returns.
pub proof fn law_folder_order_unique(entries: Seq<WalkEntry>, f1: Seq<usize>, f2: Seq<usize>)
    requires
        is_folder_order(entries, f1),
        is_folder_order(entries, f2),
    ensures
        f1 == f2,
{
    lemma_folder_members_included(entries, f1, f2);
    lemma_folder_members_included(entries, f2, f1);
    lemma_ordered_same_members_equal(entries, f1, f2);
}

/// Folders are created parents first: a folder never comes after one with
/// more components.
pub proof fn law_folders_shallow_first(entries: Seq<WalkEntry>, i: int, j: int)
    requires
        entries.len() <= usize::MAX,
        0 <= i < j < folder_order(entries).len(),
    ensures
        key_at(entries, folder_order(entries)[i]).len() <= key_at(entries, folder_order(entries)[j]).len(),
{
    lemma_folder_order_exists(entries);
    let f = folder_order(entries);
    assert(is_folder_order(entries, f));
    assert(path_before(key_at(entries, f[i]), key_at(entries, f[j])));
}

/// One step of copying a directory tree, in the order to take them.
#[derive(Debug)]
pub enum DirAction {
    /// Report that the metadata of walk entry `entry` could not be read: an error.
    ReportUnreadable { entry: usize },
    /// Report that the walk failed at walk entry `entry`: an error.
    ReportWalkFailure { entry: usize },
    /// Upload the file of walk entry `entry` to `dropbox_path`.
    Upload { entry: usize, dropbox_path: String },
    /// Create the folder at `dropbox_path`.
    CreateFolder { dropbox_path: String },
    /// Create the destination folder itself: the tree holds no file and no folder.
    CreateDestination,
}

/// A `DirAction` with its paths as character sequences.
pub enum DirActionView {
    ReportUnreadable { entry: nat },
    ReportWalkFailure { entry: nat },
    Upload { entry: nat, dropbox_path: Seq<char> },
    CreateFolder { dropbox_path: Seq<char> },
    CreateDestination,
}

impl View for DirAction {
    type V = DirActionView;

    open spec fn view(&self) -> DirActionView {
        match self {
            DirAction::ReportUnreadable { entry } => DirActionView::ReportUnreadable { entry: *entry as nat },
            DirAction::ReportWalkFailure { entry } => DirActionView::ReportWalkFailure { entry: *entry as nat },
            DirAction::Upload { entry, dropbox_path } => DirActionView::Upload {
                entry: *entry as nat,
                dropbox_path: dropbox_path@,
            },
            DirAction::CreateFolder { dropbox_path } => DirActionView::CreateFolder {
                dropbox_path: dropbox_path@,
            },
            DirAction::CreateDestination => DirActionView::CreateDestination,
        }
    }
}

/// The views of a run of actions.
pub open spec fn actions_view(acts: Seq<DirAction>) -> Seq<DirActionView> {
    acts.map_values(|a: DirAction| a@)
}

/// What walk entry `i` calls for: a report when the walk failed there or
/// its metadata could not be read, an upload below `dest` when it is a file,
/// nothing otherwise.
pub open spec fn entry_action(dest: Seq<char>, i: nat, e: WalkEntry) -> Seq<DirActionView> {
    if is_walk_failure(e) {
        seq![DirActionView::ReportWalkFailure { entry: i }]
    } else if is_unreadable_entry(e) {
        seq![DirActionView::ReportUnreadable { entry: i }]
    } else if is_file_entry(e) {
        seq![DirActionView::Upload { entry: i, dropbox_path: joined_dropbox_path(dest, rel_text(e)) }]
    } else {
        seq![]
    }
}

/// What the walk entries call for, in walk order.
pub open spec fn entry_actions(dest: Seq<char>, entries: Seq<WalkEntry>) -> Seq<DirActionView>
    decreases entries.len(),
{
    if entries.len() == 0 {
        seq![]
    } else {
        entry_actions(dest, entries.drop_last()) + entry_action(
            dest,
            (entries.len() - 1) as nat,
            entries.last(),
        )
    }
}

/// Whether the walk found a file to upload.
pub open spec fn has_file(entries: Seq<WalkEntry>) -> bool {
    exists|i: int| 0 <= i < entries.len() && is_file_entry(#[trigger] entries[i])
}

/// The folder creations, below `dest`, for the folders of the walk entries `f`.
pub open spec fn folder_actions(dest: Seq<char>, entries: Seq<WalkEntry>, f: Seq<usize>) -> Seq<DirActionView> {
    f.map_values(|x: usize| DirActionView::CreateFolder { dropbox_path: joined_dropbox_path(dest, rel_text(entries[x as int])) })
}

/// Copying a directory tree to `dest`: first, in walk order, the uploads of
/// files and the reports of walk failures and unreadable entries; then the folder creations,
/// shallow folders first; and, when the tree holds neither files nor
/// folders, the creation of `dest` itself.
pub open spec fn dir_copy_plan(dest: Seq<char>, entries: Seq<WalkEntry>) -> Seq<DirActionView> {
    let f = folder_order(entries);
    entry_actions(dest, entries) + folder_actions(dest, entries, f) + if !has_file(entries) && f.len() == 0 {
        seq![DirActionView::CreateDestination]
    } else {
        seq![]
    }
}

/// The steps of copying the directory tree that the walk found to the
/// Dropbox folder `dest`.
pub fn plan_dir_copy(dest: &str, entries: &Vec<WalkEntry>) -> (acts: Vec<DirAction>)
    ensures
        actions_view(acts@) == dir_copy_plan(dest@, entries@),
{
    let ghost es = entries@;
    let mut acts: Vec<DirAction> = Vec::new();
    let mut any_file = false;
    let mut i: usize = 0;
    assert(es.take(0) =~= Seq::<WalkEntry>::empty());
    while i < entries.len()
        invariant
            es == entries@,
            i <= es.len(),
            actions_view(acts@) == entry_actions(dest@, es.take(i as int)),
            any_file <==> has_file(es.take(i as int)),
        decreases es.len() - i,
    {
        let ghost before = acts@;
        let e = &entries[i];
        let considered = e.depth != 0 && e.rel.is_some();
        assert(es.take(i + 1).drop_last() =~= es.take(i as int));
        assert(es.take(i + 1).last() == es[i as int]);
        if let EntryKind::WalkFailed = e.kind {
            acts.push(DirAction::ReportWalkFailure { entry: i });
        } else if considered {
            match e.kind {
                EntryKind::Unreadable => {
                    acts.push(DirAction::ReportUnreadable { entry: i });
                },
                EntryKind::File => {
                    let rel: &RelPath = e.rel.as_ref().unwrap();
                    let path = join_dropbox_path(dest, rel.text.as_str());
                    acts.push(DirAction::Upload { entry: i, dropbox_path: path });
                    any_file = true;
                },
                _ => {},
            }
        }
        proof {
            let t = es.take(i + 1);
            assert(actions_view(acts@) =~= entry_actions(dest@, es.take(i as int)) + entry_action(dest@, i as nat, es[i as int]));
            if has_file(t) && !any_file {
                let w = choose|w: int| 0 <= w < t.len() && is_file_entry(#[trigger] t[w]);
                if w < i {
                    assert(es.take(i as int)[w] == t[w]);
                }
            }
            if any_file && !is_file_entry(es[i as int]) {
                let w = choose|w: int| 0 <= w < i && is_file_entry(#[trigger] es.take(i as int)[w]);
                assert(t[w] == es.take(i as int)[w]);
            }
            if is_file_entry(es[i as int]) {
                assert(t[i as int] == es[i as int]);
            }
        }
        i = i + 1;
    }
    assert(es.take(es.len() as int) =~= es);
    let folders = folders_to_create(entries);
    let ghost fv = folders@;
    proof {
        law_folder_order_unique(es, fv, folder_order(es));
    }
    let mut k: usize = 0;
    while k < folders.len()
        invariant
            k <= folders@.len(),
            fv == folders@,
            es == entries@,
            is_folder_order(es, fv),
            actions_view(acts@) == entry_actions(dest@, es) + folder_actions(dest@, es, fv.take(k as int)),
        decreases folders@.len() - k,
    {
        let x = folders[k];
        proof {
            assert(is_first_dir(es, fv[k as int] as int));
        }
        let rel: &RelPath = entries[x].rel.as_ref().unwrap();
        let path = join_dropbox_path(dest, rel.text.as_str());
        let ghost before = acts@;
        acts.push(DirAction::CreateFolder { dropbox_path: path });
        proof {
            assert(actions_view(acts@) =~= actions_view(before).push(acts@.last()@));
            assert(folder_actions(dest@, es, fv.take(k + 1)) =~= folder_actions(dest@, es, fv.take(k as int)).push(
                DirActionView::CreateFolder { dropbox_path: joined_dropbox_path(dest@, rel_text(es[x as int])) },
            ));
            assert(actions_view(acts@) =~= entry_actions(dest@, es) + folder_actions(dest@, es, fv.take(k + 1)));
        }
        k = k + 1;
    }
    assert(fv.take(fv.len() as int) =~= fv);
    if !any_file && folders.len() == 0 {
        acts.push(DirAction::CreateDestination);
        assert(actions_view(acts@) =~= dir_copy_plan(dest@, es));
    } else {
        assert(actions_view(acts@) =~= dir_copy_plan(dest@, es));
    }
    acts
}

/// Whether the walk found a directory below the source.
pub open spec fn has_dir(entries: Seq<WalkEntry>) -> bool {
    exists|i: int| 0 <= i < entries.len() && is_dir_entry(#[trigger] entries[i])
}

proof fn lemma_entry_actions_create_nothing(dest: Seq<char>, entries: Seq<WalkEntry>)
    ensures
        forall|i: int| 0 <= i < entry_actions(dest, entries).len() ==> !(#[trigger] entry_actions(dest, entries)[i] is CreateDestination),
    decreases entries.len(),
{
    if entries.len() > 0 {
        lemma_entry_actions_create_nothing(dest, entries.drop_last());
    }
}

/// The destination folder itself is created exactly when the walk found
/// neither a file nor a directory below the source; then it is the last step.
pub proof fn law_destination_created_only_for_empty_tree(dest: Seq<char>, entries: Seq<WalkEntry>)
    requires
        entries.len() <= usize::MAX,
    ensures
        (exists|i: int| 0 <= i < dir_copy_plan(dest, entries).len() && #[trigger] dir_copy_plan(dest, entries)[i] is CreateDestination)
            <==> (!has_file(entries) && !has_dir(entries)),
        !has_file(entries) && !has_dir(entries) ==> dir_copy_plan(dest, entries).last() is CreateDestination,
{
    let f = folder_order(entries);
    let p = dir_copy_plan(dest, entries);
    let ea = entry_actions(dest, entries);
    let fa = folder_actions(dest, entries, f);
    lemma_folder_order_exists(entries);
    assert(is_folder_order(entries, f));
    lemma_entry_actions_create_nothing(dest, entries);
    if has_dir(entries) {
        let d = choose|d: int| 0 <= d < entries.len() && is_dir_entry(#[trigger] entries[d]);
        lemma_first_dir_exists(entries, d);
        let first = choose|m: int| 0 <= m <= d && is_dir_entry(#[trigger] entries[m]) && forall|k: int| 0 <= k < m ==> !is_dir_entry(#[trigger] entries[k]);
        assert(is_first_dir(entries, first));
        assert(f.contains(first as usize));
        assert(f.len() > 0);
    } else {
        if f.len() > 0 {
            assert(is_first_dir(entries, f[0] as int));
            assert(is_dir_entry(entries[f[0] as int]));
        }
    }
    assert forall|i: int| 0 <= i < ea.len() + fa.len() implies !(#[trigger] p[i] is CreateDestination) by {
        if i < ea.len() {
            assert(p[i] == ea[i]);
        } else {
            assert(p[i] == fa[i - ea.len()]);
        }
    }
    if !has_file(entries) && !has_dir(entries) {
        assert(p[p.len() - 1] is CreateDestination);
    }
}

/// Among the directory entries up to `d`, there is a first one.
proof fn lemma_first_dir_exists(entries: Seq<WalkEntry>, d: int)
    requires
        0 <= d < entries.len(),
        is_dir_entry(entries[d]),
    ensures
        exists|m: int| 0 <= m <= d && is_dir_entry(#[trigger] entries[m]) && forall|k: int| 0 <= k < m ==> !is_dir_entry(#[trigger] entries[k]),
    decreases d,
{
    if exists|k: int| 0 <= k < d && is_dir_entry(#[trigger] entries[k]) {
        let k = choose|k: int| 0 <= k < d && is_dir_entry(#[trigger] entries[k]);
        lemma_first_dir_exists(entries, k);
    } else {
        assert(forall|k: int| 0 <= k < d ==> !is_dir_entry(#[trigger] entries[k]));
    }
}

proof fn lemma_entry_actions_report_walk_failure(dest: Seq<char>, entries: Seq<WalkEntry>, i: int)
    requires
        0 <= i < entries.len(),
        is_walk_failure(entries[i]),
    ensures
        entry_actions(dest, entries).contains(DirActionView::ReportWalkFailure { entry: i as nat }),
    decreases entries.len(),
{
    let a = DirActionView::ReportWalkFailure { entry: i as nat };
    let prev = entry_actions(dest, entries.drop_last());
    let last = entry_action(dest, (entries.len() - 1) as nat, entries.last());
    if i == entries.len() - 1 {
        assert(last == seq![a]);
        assert((prev + last)[prev.len() as int] == a);
    } else {
        assert(entries.drop_last()[i] == entries[i]);
        lemma_entry_actions_report_walk_failure(dest, entries.drop_last(), i);
        let k = choose|k: int| 0 <= k < prev.len() && prev[k] == a;
        assert((prev + last)[k] == a);
    }
}

/// A failure of the walk itself is never passed over: for every walk entry
/// where the walk failed, the plan reports it, which counts as an error.
pub proof fn law_walk_failures_are_reported(dest: Seq<char>, entries: Seq<WalkEntry>, i: int)
    requires
        0 <= i < entries.len(),
        is_walk_failure(entries[i]),
    ensures
        dir_copy_plan(dest, entries).contains(DirActionView::ReportWalkFailure { entry: i as nat }),
{
    lemma_entry_actions_report_walk_failure(dest, entries, i);
    let a = DirActionView::ReportWalkFailure { entry: i as nat };
    let ea = entry_actions(dest, entries);
    let p = dir_copy_plan(dest, entries);
    let k = choose|k: int| 0 <= k < ea.len() && ea[k] == a;
    assert(p[k] == ea[k]);
}

/// The entry actions upload exactly the walked files, each once, in walk
/// order, to the destination path of its relative text.
proof fn lemma_entry_actions_uploads(dest: Seq<char>, entries: Seq<WalkEntry>)
    ensures
        ({
            let ea = entry_actions(dest, entries);
            &&& forall|i: int| 0 <= i < entries.len() && (#[trigger] entries[i]).depth != 0 && entries[i].rel is Some && entries[i].kind is File ==> ea.contains(
                DirActionView::Upload { entry: i as nat, dropbox_path: joined_dropbox_path(dest, entries[i].rel.unwrap().text@) },
            )
            &&& forall|k: int| 0 <= k < ea.len() ==> (#[trigger] ea[k] matches DirActionView::Upload { entry, dropbox_path } ==> entry < entries.len() && entries[entry as int].depth != 0 && entries[entry as int].rel is Some && entries[entry as int].kind is File && dropbox_path == joined_dropbox_path(dest, entries[entry as int].rel.unwrap().text@))
            &&& forall|k1: int, k2: int| 0 <= k1 < k2 < ea.len() ==> (#[trigger] ea[k1] matches DirActionView::Upload { entry: e1, .. } ==> (#[trigger] ea[k2] matches DirActionView::Upload { entry: e2, .. } ==> e1 < e2))
        }),
    decreases entries.len(),
{
    if entries.len() == 0 {
        return;
    }
    let n = entries.len() - 1;
    let d = entries.drop_last();
    lemma_entry_actions_uploads(dest, d);
    let prev = entry_actions(dest, d);
    let last = entry_action(dest, n as nat, entries[n]);
    let ea = entry_actions(dest, entries);
    assert(ea == prev + last);
    assert forall|k: int| 0 <= k < ea.len() implies (#[trigger] ea[k] matches DirActionView::Upload { entry, dropbox_path } ==> entry < entries.len() && entries[entry as int].depth != 0 && entries[entry as int].rel is Some && entries[entry as int].kind is File && dropbox_path == joined_dropbox_path(dest, entries[entry as int].rel.unwrap().text@)) by {
        if k < prev.len() {
            assert(ea[k] == prev[k]);
            if let DirActionView::Upload { entry, dropbox_path } = prev[k] {
                assert(d[entry as int] == entries[entry as int]);
            }
        } else {
            assert(ea[k] == last[k - prev.len()]);
        }
    }
    assert forall|k1: int, k2: int| 0 <= k1 < k2 < ea.len() implies (#[trigger] ea[k1] matches DirActionView::Upload { entry: e1, .. } ==> (#[trigger] ea[k2] matches DirActionView::Upload { entry: e2, .. } ==> e1 < e2)) by {
        if k2 < prev.len() {
            assert(ea[k1] == prev[k1] && ea[k2] == prev[k2]);
        } else if k1 < prev.len() {
            assert(ea[k1] == prev[k1]);
            assert(ea[k2] == last[k2 - prev.len()]);
        } else {
            assert(ea[k1] == last[k1 - prev.len()]);
            assert(ea[k2] == last[k2 - prev.len()]);
        }
    }
    assert forall|i: int| 0 <= i < entries.len() && (#[trigger] entries[i]).depth != 0 && entries[i].rel is Some && entries[i].kind is File implies ea.contains(
        DirActionView::Upload { entry: i as nat, dropbox_path: joined_dropbox_path(dest, entries[i].rel.unwrap().text@) },
    ) by {
        let a = DirActionView::Upload { entry: i as nat, dropbox_path: joined_dropbox_path(dest, entries[i].rel.unwrap().text@) };
        if i < n {
            assert(d[i] == entries[i]);
            let k = choose|k: int| 0 <= k < prev.len() && prev[k] == a;
            assert(ea[k] == a);
        } else {
            assert(last == seq![a]);
            assert(ea[prev.len() as int] == a);
        }
    }
}

/// Copying a directory tree uploads every regular file that the walk found
/// below the source, whatever its name, to the destination path of its
/// relative path; it uploads nothing else; and it uploads each such file
/// exactly once, in walk order (the uploaded entries strictly increase).
pub proof fn law_every_walked_file_uploaded_once(dest: Seq<char>, entries: Seq<WalkEntry>)
    ensures
        ({
            let p = dir_copy_plan(dest, entries);
            &&& forall|i: int| 0 <= i < entries.len() && (#[trigger] entries[i]).depth != 0 && entries[i].rel is Some && entries[i].kind is File ==> p.contains(
                DirActionView::Upload { entry: i as nat, dropbox_path: joined_dropbox_path(dest, entries[i].rel.unwrap().text@) },
            )
            &&& forall|k: int| 0 <= k < p.len() ==> (#[trigger] p[k] matches DirActionView::Upload { entry, dropbox_path } ==> entry < entries.len() && entries[entry as int].depth != 0 && entries[entry as int].rel is Some && entries[entry as int].kind is File && dropbox_path == joined_dropbox_path(dest, entries[entry as int].rel.unwrap().text@))
            &&& forall|k1: int, k2: int| 0 <= k1 < k2 < p.len() ==> (#[trigger] p[k1] matches DirActionView::Upload { entry: e1, .. } ==> (#[trigger] p[k2] matches DirActionView::Upload { entry: e2, .. } ==> e1 < e2))
        }),
{
    lemma_entry_actions_uploads(dest, entries);
    let p = dir_copy_plan(dest, entries);
    let ea = entry_actions(dest, entries);
    let f = folder_order(entries);
    let fa = folder_actions(dest, entries, f);
    assert forall|k: int| ea.len() <= k < p.len() implies !(#[trigger] p[k] is Upload) by {
        if k < ea.len() + fa.len() {
            assert(p[k] == fa[k - ea.len()]);
        }
    }
    assert forall|k: int| 0 <= k < ea.len() implies #[trigger] p[k] == ea[k] by {}
    assert forall|i: int| 0 <= i < entries.len() && (#[trigger] entries[i]).depth != 0 && entries[i].rel is Some && entries[i].kind is File implies p.contains(
        DirActionView::Upload { entry: i as nat, dropbox_path: joined_dropbox_path(dest, entries[i].rel.unwrap().text@) },
    ) by {
        let a = DirActionView::Upload { entry: i as nat, dropbox_path: joined_dropbox_path(dest, entries[i].rel.unwrap().text@) };
        let k = choose|k: int| 0 <= k < ea.len() && ea[k] == a;
        assert(p[k] == a);
    }
    assert forall|k1: int, k2: int| 0 <= k1 < k2 < p.len() implies (#[trigger] p[k1] matches DirActionView::Upload { entry: e1, .. } ==> (#[trigger] p[k2] matches DirActionView::Upload { entry: e2, .. } ==> e1 < e2)) by {
        if p[k1] is Upload && p[k2] is Upload {
            assert(k2 < ea.len());
            assert(ea[k1] == p[k1] && ea[k2] == p[k2]);
        }
    }
}

} // verus!
