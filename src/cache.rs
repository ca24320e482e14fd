//! The cache of aggregated folders as a sequence of slots, one per
//! directory: what it means for the cache to agree with the tree and with
//! itself, and the lemmas by which each operation of the session keeps it so.
use vstd::prelude::*;

use crate::entry::{entry_bytes, FolderEntry, FolderEntryType};
use crate::folder::{
    first_line, has_parent_line, is_folder_line, lemma_first_line_found, lemma_first_line_range,
    lemma_total_ge_entry, lemma_total_remove, adjusted, total_of, Folder,
};
use crate::tree::{
    ancestor, lemma_ancestor_decreasing, lemma_ancestor_in_range, tree_size, tree_wf, within,
    DirListing,
};

verus! {

/// A cached folder that the engine can work on: it has a line under a valid
/// cursor, and its total fits in 64 bits.
pub open spec fn folder_ok(f: Folder) -> bool {
    &&& has_parent_line(f.entries@)
    &&& f.cursor_index < f.entries@.len()
    &&& total_of(f.entries@) <= u64::MAX
}

/// Every cached folder holds, in total, what its directory holds on disk.
pub open spec fn cache_sound(dirs: Seq<DirListing>, cache: Seq<Option<Folder>>) -> bool {
    forall|x: int|
        0 <= x < cache.len() && #[trigger] cache[x] is Some ==> total_of(cache[x]->0.entries@)
            == tree_size(dirs, x)
}

/// `next` keeps every folder that `prev` had cached.
pub open spec fn cache_grows(prev: Seq<Option<Folder>>, next: Seq<Option<Folder>>) -> bool {
    &&& next.len() == prev.len()
    &&& forall|x: int| 0 <= x < prev.len() && #[trigger] prev[x] is Some ==> next[x] == prev[x]
}

/// The ancestors one to `k` levels above `d` all exist and are cached.
pub open spec fn chain_cached(dirs: Seq<DirListing>, cache: Seq<Option<Folder>>, d: int, k: nat) -> bool
    decreases k,
{
    if k == 0 {
        true
    } else {
        &&& chain_cached(dirs, cache, d, (k - 1) as nat)
        &&& ancestor(dirs, d, k) matches Some(a) && 0 <= a < cache.len() && cache[a] is Some
    }
}

/// What a deletion beneath directory `d` does to the cached ancestors of `d`:
/// walking up while the ancestors are cached, each one has the line of the
/// directory just below it lowered by `delta`; no other folder changes.
pub open spec fn propagated(
    dirs: Seq<DirListing>,
    prev: Seq<Option<Folder>>,
    next: Seq<Option<Folder>>,
    d: int,
    delta: nat,
) -> bool {
    &&& next.len() == prev.len()
    &&& forall|k: nat|
        1 <= k && #[trigger] chain_cached(dirs, prev, d, k) ==> {
            let a = ancestor(dirs, d, k)->0;
            let below = ancestor(dirs, d, (k - 1) as nat)->0;
            next[a] matches Some(nf) && adjusted(prev[a]->0, nf, dirs[below].title@, delta)
        }
    &&& forall|x: int|
        0 <= x < prev.len() && (forall|k: nat|
            1 <= k && #[trigger] chain_cached(dirs, prev, d, k) ==> ancestor(dirs, d, k) != Some(
                x,
            )) ==> #[trigger] next[x] == prev[x]
}

/// Level `k` above `d` is cached in `prev` and its folder in `next` is the one
/// in `prev` with the line of the directory below lowered by `delta`.
pub open spec fn level_lowered(
    dirs: Seq<DirListing>,
    prev: Seq<Option<Folder>>,
    next: Seq<Option<Folder>>,
    d: int,
    k: nat,
    delta: nat,
) -> bool {
    let a = ancestor(dirs, d, k)->0;
    let below = ancestor(dirs, d, (k - 1) as nat)->0;
    &&& chain_cached(dirs, prev, d, k)
    &&& next[a] is Some
    &&& adjusted(prev[a]->0, next[a]->0, dirs[below].title@, delta)
}

pub proof fn lemma_chain_shorter(dirs: Seq<DirListing>, cache: Seq<Option<Folder>>, d: int, j: nat, k: nat)
    requires
        j <= k,
        chain_cached(dirs, cache, d, k),
    ensures
        chain_cached(dirs, cache, d, j),
    decreases k,
{
    if j < k {
        lemma_chain_shorter(dirs, cache, d, j, (k - 1) as nat);
    }
}

/// The cache invariant: in each cached folder, the folder line of a cached
/// subdirectory holds that subdirectory's total.
#[verifier::opaque]
pub open spec fn lines_match_totals(dirs: Seq<DirListing>, cache: Seq<Option<Folder>>) -> bool {
    forall|a: int, b: int, i: int|
        0 <= a < cache.len() && 0 <= b < cache.len() && cache[a] is Some && cache[b] is Some
            && dirs[b].parent == Some(a as usize) && 0 <= i < cache[a]->0.entries@.len()
            && #[trigger] is_folder_line(cache[a]->0.entries@[i], dirs[b].title@) ==> {
            &&& cache[a]->0.entries@[i].size is Some
            &&& entry_bytes(cache[a]->0.entries@[i]) == total_of(cache[b]->0.entries@)
        }
}

/// Every ancestor of directory `cur` is cached and lists the directory below it.
#[verifier::opaque]
pub open spec fn focus_listed(dirs: Seq<DirListing>, cache: Seq<Option<Folder>>, cur: int) -> bool {
    forall|k: nat|
        1 <= k && #[trigger] ancestor(dirs, cur, k) is Some ==> {
            &&& chain_cached(dirs, cache, cur, k)
            &&& exists|i: int|
                0 <= i < cache[ancestor(dirs, cur, k)->0]->0.entries@.len() && #[trigger] is_folder_line(
                    cache[ancestor(dirs, cur, k)->0]->0.entries@[i],
                    dirs[ancestor(dirs, cur, (k - 1) as nat)->0].title@,
                )
        }
}

/// No two folder lines of `s` share a title.
pub open spec fn folder_titles_unique(s: Seq<FolderEntry>) -> bool {
    forall|i: int, j: int|
        0 <= i < s.len() && 0 <= j < s.len() && i != j && #[trigger] is_folder_line(s[i], s[j].title@)
            ==> s[j].kind != FolderEntryType::Folder
}

/// In each cached folder, no two folder lines share a title.
#[verifier::opaque]
pub open spec fn titles_unique(cache: Seq<Option<Folder>>) -> bool {
    forall|x: int|
        0 <= x < cache.len() && #[trigger] cache[x] is Some ==> folder_titles_unique(cache[x]->0.entries@)
}

/// A cached folder has no folder line for a subdirectory that is not cached.
#[verifier::opaque]
pub open spec fn evicted_unlisted(dirs: Seq<DirListing>, cache: Seq<Option<Folder>>) -> bool {
    forall|a: int, b: int, i: int|
        0 <= a < cache.len() && 0 <= b < cache.len() && cache[a] is Some && cache[b] is None
            && dirs[b].parent == Some(a as usize) && 0 <= i < cache[a]->0.entries@.len()
            ==> !#[trigger] is_folder_line(cache[a]->0.entries@[i], dirs[b].title@)
}

pub proof fn lemma_root_has_no_ancestor(dirs: Seq<DirListing>, k: nat)
    requires
        tree_wf(dirs),
        1 <= k,
    ensures
        ancestor(dirs, 0, k) is None,
    decreases k,
{
    if k > 1 {
        lemma_root_has_no_ancestor(dirs, (k - 1) as nat);
    } else {
        assert(ancestor(dirs, 0, 0) == Some(0int));
    }
}

pub proof fn lemma_chain_same(
    dirs: Seq<DirListing>,
    c1: Seq<Option<Folder>>,
    c2: Seq<Option<Folder>>,
    d: int,
    k: nat,
)
    requires
        c1.len() == c2.len(),
        forall|x: int| 0 <= x < c1.len() ==> (#[trigger] c1[x] is Some <==> c2[x] is Some),
    ensures
        chain_cached(dirs, c1, d, k) == chain_cached(dirs, c2, d, k),
    decreases k,
{
    if k > 0 {
        lemma_chain_same(dirs, c1, c2, d, (k - 1) as nat);
    }
}

/// The cache invariants hold alike of two caches that hold the same folders
/// with the same lines.
pub proof fn lemma_consistent_frame(
    dirs: Seq<DirListing>,
    c1: Seq<Option<Folder>>,
    c2: Seq<Option<Folder>>,
    cur: int,
)
    requires
        c1.len() == c2.len(),
        forall|x: int| 0 <= x < c1.len() ==> (#[trigger] c1[x] is Some <==> c2[x] is Some),
        forall|x: int| 0 <= x < c1.len() && #[trigger] c1[x] is Some ==> c1[x]->0.entries@ == c2[x]->0.entries@,
        lines_match_totals(dirs, c1),
        focus_listed(dirs, c1, cur),
        titles_unique(c1),
        evicted_unlisted(dirs, c1),
    ensures
        lines_match_totals(dirs, c2),
        focus_listed(dirs, c2, cur),
        titles_unique(c2),
        evicted_unlisted(dirs, c2),
{
    reveal(lines_match_totals);
    reveal(focus_listed);
    reveal(titles_unique);
    reveal(evicted_unlisted);
    assert forall|a: int, b: int, i: int|
        0 <= a < c2.len() && 0 <= b < c2.len() && c2[a] is Some && c2[b] is Some
            && dirs[b].parent == Some(a as usize) && 0 <= i < c2[a]->0.entries@.len()
            && #[trigger] is_folder_line(c2[a]->0.entries@[i], dirs[b].title@) implies {
        &&& c2[a]->0.entries@[i].size is Some
        &&& entry_bytes(c2[a]->0.entries@[i]) == total_of(c2[b]->0.entries@)
    } by {
        assert(c1[a] is Some && c1[b] is Some);
        assert(is_folder_line(c1[a]->0.entries@[i], dirs[b].title@));
    }
    assert forall|k: nat| 1 <= k && #[trigger] ancestor(dirs, cur, k) is Some implies {
        &&& chain_cached(dirs, c2, cur, k)
        &&& exists|i: int|
            0 <= i < c2[ancestor(dirs, cur, k)->0]->0.entries@.len() && #[trigger] is_folder_line(
                c2[ancestor(dirs, cur, k)->0]->0.entries@[i],
                dirs[ancestor(dirs, cur, (k - 1) as nat)->0].title@,
            )
    } by {
        lemma_chain_same(dirs, c1, c2, cur, k);
        let a = ancestor(dirs, cur, k)->0;
        let t = dirs[ancestor(dirs, cur, (k - 1) as nat)->0].title@;
        assert(chain_cached(dirs, c1, cur, k));
        let i = choose|i: int| 0 <= i < c1[a]->0.entries@.len() && #[trigger] is_folder_line(c1[a]->0.entries@[i], t);
        assert(is_folder_line(c2[a]->0.entries@[i], t));
    }
    assert forall|x: int| 0 <= x < c2.len() && #[trigger] c2[x] is Some implies folder_titles_unique(c2[x]->0.entries@) by {
        assert(c1[x] is Some);
    }
    assert forall|a: int, b: int, i: int|
        0 <= a < c2.len() && 0 <= b < c2.len() && c2[a] is Some && c2[b] is None
            && dirs[b].parent == Some(a as usize) && 0 <= i < c2[a]->0.entries@.len()
            implies !#[trigger] is_folder_line(c2[a]->0.entries@[i], dirs[b].title@) by {
        assert(c1[a] is Some && c1[b] is None);
        assert(!is_folder_line(c1[a]->0.entries@[i], dirs[b].title@));
    }
}

pub proof fn lemma_perm_has(s: Seq<FolderEntry>, t: Seq<FolderEntry>, i: int)
    requires
        s.to_multiset() == t.to_multiset(),
        0 <= i < t.len(),
    ensures
        exists|j: int| 0 <= j < s.len() && s[j] == t[i],
{
    broadcast use vstd::seq_lib::group_to_multiset_ensures;

    assert(t.contains(t[i]));
    assert(t.to_multiset().count(t[i]) > 0);
    assert(s.to_multiset().count(t[i]) > 0);
    assert(s.contains(t[i]));
}

pub proof fn lemma_perm_unique(s: Seq<FolderEntry>, t: Seq<FolderEntry>)
    requires
        s.to_multiset() == t.to_multiset(),
        folder_titles_unique(s),
    ensures
        folder_titles_unique(t),
{
    broadcast use vstd::seq_lib::group_to_multiset_ensures;

    assert forall|i: int, j: int|
        0 <= i < t.len() && 0 <= j < t.len() && i != j && #[trigger] is_folder_line(t[i], t[j].title@)
            implies t[j].kind != FolderEntryType::Folder by {
        if t[j].kind == FolderEntryType::Folder {
            lemma_perm_has(s, t, i);
            lemma_perm_has(s, t, j);
            let p = choose|p: int| 0 <= p < s.len() && s[p] == t[i];
            let q = choose|q: int| 0 <= q < s.len() && s[q] == t[j];
            if t[i] == t[j] {
                // the line occurs twice in t, so twice in s
                let ri = t.remove(i);
                assert(ri.contains(t[j])) by {
                    if j < i {
                        assert(ri[j] == t[j]);
                    } else {
                        assert(ri[j - 1] == t[j]);
                    }
                }
                assert(ri.to_multiset() == t.to_multiset().remove(t[i]));
                assert(ri.to_multiset().count(t[i]) > 0);
                assert(s.to_multiset().count(t[i]) >= 2);
                let rs = s.remove(p);
                assert(rs.to_multiset() == s.to_multiset().remove(s[p]));
                assert(rs.to_multiset().count(t[i]) > 0);
                assert(rs.contains(t[i]));
                let q2 = choose|q2: int| 0 <= q2 < rs.len() && rs[q2] == t[i];
                let q3 = if q2 < p { q2 } else { q2 + 1 };
                assert(s[q3] == t[i]);
                assert(is_folder_line(s[p], s[q3].title@));
            } else {
                assert(p != q);
                assert(is_folder_line(s[p], s[q].title@));
            }
        }
    }
}

/// The cache invariants survive reordering the lines of the folder of `x`,
/// when `x` is not an ancestor of the focus `cur`.
pub proof fn lemma_consistent_reorder(
    dirs: Seq<DirListing>,
    c1: Seq<Option<Folder>>,
    c2: Seq<Option<Folder>>,
    cur: int,
    x: int,
)
    requires
        tree_wf(dirs),
        c1.len() == c2.len(),
        c1.len() == dirs.len(),
        0 <= cur < dirs.len(),
        0 <= x < c1.len(),
        forall|k: nat| 1 <= k && #[trigger] ancestor(dirs, cur, k) is Some ==> ancestor(dirs, cur, k) != Some(x),
        forall|y: int| 0 <= y < c1.len() && y != x ==> #[trigger] c2[y] == c1[y],
        c1[x] is Some,
        c2[x] is Some,
        c2[x]->0.entries@.to_multiset() == c1[x]->0.entries@.to_multiset(),
        total_of(c2[x]->0.entries@) == total_of(c1[x]->0.entries@),
        lines_match_totals(dirs, c1),
        focus_listed(dirs, c1, cur),
        titles_unique(c1),
        evicted_unlisted(dirs, c1),
    ensures
        lines_match_totals(dirs, c2),
        focus_listed(dirs, c2, cur),
        titles_unique(c2),
        evicted_unlisted(dirs, c2),
{
    reveal(lines_match_totals);
    reveal(focus_listed);
    reveal(titles_unique);
    reveal(evicted_unlisted);
    let s = c1[x]->0.entries@;
    let t = c2[x]->0.entries@;
    assert forall|y: int| 0 <= y < c1.len() implies (#[trigger] c1[y] is Some <==> c2[y] is Some) by {}
    assert forall|a: int, b: int, i: int|
        0 <= a < c2.len() && 0 <= b < c2.len() && c2[a] is Some && c2[b] is Some
            && dirs[b].parent == Some(a as usize) && 0 <= i < c2[a]->0.entries@.len()
            && #[trigger] is_folder_line(c2[a]->0.entries@[i], dirs[b].title@) implies {
        &&& c2[a]->0.entries@[i].size is Some
        &&& entry_bytes(c2[a]->0.entries@[i]) == total_of(c2[b]->0.entries@)
    } by {
        if a == x {
            lemma_perm_has(s, t, i);
            let j = choose|j: int| 0 <= j < s.len() && s[j] == t[i];
            assert(is_folder_line(c1[a]->0.entries@[j], dirs[b].title@));
        } else {
            assert(is_folder_line(c1[a]->0.entries@[i], dirs[b].title@));
        }
    }
    assert forall|k: nat| 1 <= k && #[trigger] ancestor(dirs, cur, k) is Some implies {
        &&& chain_cached(dirs, c2, cur, k)
        &&& exists|i: int|
            0 <= i < c2[ancestor(dirs, cur, k)->0]->0.entries@.len() && #[trigger] is_folder_line(
                c2[ancestor(dirs, cur, k)->0]->0.entries@[i],
                dirs[ancestor(dirs, cur, (k - 1) as nat)->0].title@,
            )
    } by {
        lemma_chain_same(dirs, c1, c2, cur, k);
        lemma_ancestor_in_range(dirs, cur, k);
        let a = ancestor(dirs, cur, k)->0;
        assert(c2[a] == c1[a]);
    }
    assert forall|y: int| 0 <= y < c2.len() && #[trigger] c2[y] is Some implies folder_titles_unique(c2[y]->0.entries@) by {
        if y == x {
            lemma_perm_unique(s, t);
        }
    }
    assert forall|a: int, b: int, i: int|
        0 <= a < c2.len() && 0 <= b < c2.len() && c2[a] is Some && c2[b] is None
            && dirs[b].parent == Some(a as usize) && 0 <= i < c2[a]->0.entries@.len()
            implies !#[trigger] is_folder_line(c2[a]->0.entries@[i], dirs[b].title@) by {
        if a == x {
            lemma_perm_has(s, t, i);
            let j = choose|j: int| 0 <= j < s.len() && s[j] == t[i];
            assert(!is_folder_line(c1[a]->0.entries@[j], dirs[b].title@));
        } else {
            assert(!is_folder_line(c1[a]->0.entries@[i], dirs[b].title@));
        }
    }
}

/// The lines of `s` after the first stand, in order, for the items of
/// directory `d`: same titles, folder lines exactly for subdirectories, and
/// each subdirectory cached in `cache` with its total on its line.
pub open spec fn built_from(dirs: Seq<DirListing>, cache: Seq<Option<Folder>>, d: int, s: Seq<FolderEntry>) -> bool {
    &&& s.len() >= 1
    &&& s[0].kind == FolderEntryType::Parent
    &&& forall|j: int|
        1 <= j < s.len() ==> {
            let item = dirs[d].items@[j - 1];
            &&& (#[trigger] s[j]).title@ == item.name@
            &&& (s[j].kind == FolderEntryType::Folder) == (item.dir is Some)
            &&& item.dir is Some ==> {
                &&& 0 <= item.dir->0 < cache.len()
                &&& cache[item.dir->0 as int] is Some
                &&& s[j].size is Some
                &&& entry_bytes(s[j]) == total_of(cache[item.dir->0 as int]->0.entries@)
            }
        }
    &&& s.len() <= dirs[d].items@.len() + 1
}

pub proof fn lemma_built_grows(
    dirs: Seq<DirListing>,
    c1: Seq<Option<Folder>>,
    c2: Seq<Option<Folder>>,
    d: int,
    s: Seq<FolderEntry>,
)
    requires
        built_from(dirs, c1, d, s),
        cache_grows(c1, c2),
    ensures
        built_from(dirs, c2, d, s),
{
    assert forall|j: int| 1 <= j < s.len() implies {
        let item = dirs[d].items@[j - 1];
        &&& (#[trigger] s[j]).title@ == item.name@
        &&& (s[j].kind == FolderEntryType::Folder) == (item.dir is Some)
        &&& item.dir is Some ==> {
            &&& 0 <= item.dir->0 < c2.len()
            &&& c2[item.dir->0 as int] is Some
            &&& s[j].size is Some
            &&& entry_bytes(s[j]) == total_of(c2[item.dir->0 as int]->0.entries@)
        }
    } by {
        let item = dirs[d].items@[j - 1];
        if item.dir is Some {
            assert(c1[item.dir->0 as int] is Some);
        }
    }
}

pub proof fn lemma_chain_grows(
    dirs: Seq<DirListing>,
    c1: Seq<Option<Folder>>,
    c2: Seq<Option<Folder>>,
    d: int,
    k: nat,
)
    requires
        c1.len() == c2.len(),
        forall|x: int| 0 <= x < c1.len() && #[trigger] c1[x] is Some ==> c2[x] is Some,
        chain_cached(dirs, c1, d, k),
    ensures
        chain_cached(dirs, c2, d, k),
    decreases k,
{
    if k > 0 {
        lemma_chain_grows(dirs, c1, c2, d, (k - 1) as nat);
    }
}

/// A line built for a subdirectory named like the child `b` of `d` was built
/// for `b` itself.
proof fn lemma_built_line_is_child(
    dirs: Seq<DirListing>,
    cache: Seq<Option<Folder>>,
    d: int,
    s: Seq<FolderEntry>,
    j: int,
    b: int,
)
    requires
        tree_wf(dirs),
        0 <= d < dirs.len(),
        dirs.len() <= usize::MAX,
        0 < b < dirs.len(),
        dirs[b].parent == Some(d as usize),
        built_from(dirs, cache, d, s),
        1 <= j < s.len(),
        is_folder_line(s[j], dirs[b].title@),
    ensures
        dirs[d].items@[j - 1].dir == Some(b as usize),
{
    assert(crate::tree::listed_by_parent(dirs, b));
    assert(dirs[b].parent->0 as int == d);
    assert(exists|k: int| 0 <= k < dirs[d].items@.len() && #[trigger] dirs[d].items@[k].dir == Some(b as usize));
    let kb = choose|k: int| 0 <= k < dirs[d].items@.len() && #[trigger] dirs[d].items@[k].dir == Some(b as usize);
    assert(dirs[d].items@[kb].name@ == dirs[b].title@);
    assert(s[j].title@ == dirs[d].items@[j - 1].name@);
    if kb != j - 1 {
        assert(dirs[d].items@[kb].name@ != dirs[d].items@[j - 1].name@);
    }
}

proof fn lemma_insert_links(
    dirs: Seq<DirListing>,
    c1: Seq<Option<Folder>>,
    c2: Seq<Option<Folder>>,
    cur: int,
    d: int,
    built: Seq<FolderEntry>,
)
    requires
        tree_wf(dirs),
        dirs.len() <= usize::MAX,
        c1.len() == dirs.len(),
        c2.len() == c1.len(),
        0 <= d < dirs.len(),
        0 <= cur < dirs.len(),
        c1[d] is None,
        c2[d] is Some,
        forall|y: int| 0 <= y < c1.len() && y != d ==> #[trigger] c2[y] == c1[y],
        built_from(dirs, c1, d, built),
        c2[d]->0.entries@.to_multiset() == built.to_multiset(),
        lines_match_totals(dirs, c1),
        evicted_unlisted(dirs, c1),
    ensures
        lines_match_totals(dirs, c2),
{
    reveal(lines_match_totals);
    reveal(evicted_unlisted);
    let f = c2[d]->0.entries@;
    assert forall|a: int, b: int, i: int|
        0 <= a < c2.len() && 0 <= b < c2.len() && c2[a] is Some && c2[b] is Some
            && dirs[b].parent == Some(a as usize) && 0 <= i < c2[a]->0.entries@.len()
            && #[trigger] is_folder_line(c2[a]->0.entries@[i], dirs[b].title@) implies {
        &&& c2[a]->0.entries@[i].size is Some
        &&& entry_bytes(c2[a]->0.entries@[i]) == total_of(c2[b]->0.entries@)
    } by {
        if a == d {
            lemma_perm_has(built, f, i);
            let j = choose|j: int| 0 <= j < built.len() && built[j] == f[i];
            assert(j != 0);
            assert(b > 0);
            lemma_built_line_is_child(dirs, c1, d, built, j, b);
            assert(b != d);
            assert(c2[b] == c1[b]);
        } else if b == d {
            assert(!is_folder_line(c1[a]->0.entries@[i], dirs[b].title@));
        } else {
            assert(c2[a] == c1[a] && c2[b] == c1[b]);
            assert(is_folder_line(c1[a]->0.entries@[i], dirs[b].title@));
        }
    }
}

proof fn lemma_insert_focus(
    dirs: Seq<DirListing>,
    c1: Seq<Option<Folder>>,
    c2: Seq<Option<Folder>>,
    cur: int,
    d: int,
    built: Seq<FolderEntry>,
)
    requires
        tree_wf(dirs),
        dirs.len() <= usize::MAX,
        c1.len() == dirs.len(),
        c2.len() == c1.len(),
        0 <= d < dirs.len(),
        0 <= cur < dirs.len(),
        c1[d] is None,
        c2[d] is Some,
        forall|y: int| 0 <= y < c1.len() && y != d ==> #[trigger] c2[y] == c1[y],
        built_from(dirs, c1, d, built),
        c2[d]->0.entries@.to_multiset() == built.to_multiset(),
        focus_listed(dirs, c1, cur),
    ensures
        focus_listed(dirs, c2, cur),
{
    reveal(focus_listed);
    assert forall|y: int| 0 <= y < c1.len() && #[trigger] c1[y] is Some implies c2[y] is Some by {}
    assert forall|k: nat| 1 <= k && #[trigger] ancestor(dirs, cur, k) is Some implies {
        &&& chain_cached(dirs, c2, cur, k)
        &&& exists|i: int|
            0 <= i < c2[ancestor(dirs, cur, k)->0]->0.entries@.len() && #[trigger] is_folder_line(
                c2[ancestor(dirs, cur, k)->0]->0.entries@[i],
                dirs[ancestor(dirs, cur, (k - 1) as nat)->0].title@,
            )
    } by {
        lemma_chain_grows(dirs, c1, c2, cur, k);
        lemma_ancestor_in_range(dirs, cur, k);
        let a = ancestor(dirs, cur, k)->0;
        assert(chain_cached(dirs, c1, cur, k));
        assert(c1[a] is Some);
        assert(c2[a] == c1[a]);
    }
}

proof fn lemma_insert_unique(
    dirs: Seq<DirListing>,
    c1: Seq<Option<Folder>>,
    c2: Seq<Option<Folder>>,
    cur: int,
    d: int,
    built: Seq<FolderEntry>,
)
    requires
        tree_wf(dirs),
        dirs.len() <= usize::MAX,
        c1.len() == dirs.len(),
        c2.len() == c1.len(),
        0 <= d < dirs.len(),
        0 <= cur < dirs.len(),
        c1[d] is None,
        c2[d] is Some,
        forall|y: int| 0 <= y < c1.len() && y != d ==> #[trigger] c2[y] == c1[y],
        built_from(dirs, c1, d, built),
        c2[d]->0.entries@.to_multiset() == built.to_multiset(),
        titles_unique(c1),
    ensures
        titles_unique(c2),
{
    reveal(titles_unique);
    let f = c2[d]->0.entries@;
    assert forall|y: int| 0 <= y < c2.len() && #[trigger] c2[y] is Some implies folder_titles_unique(c2[y]->0.entries@) by {
        if y == d {
            assert forall|i: int, j: int|
                0 <= i < built.len() && 0 <= j < built.len() && i != j && #[trigger] is_folder_line(built[i], built[j].title@)
                    implies built[j].kind != FolderEntryType::Folder by {
                if built[j].kind == FolderEntryType::Folder {
                    assert(i != 0 && j != 0);
                    assert(dirs[d].items@[i - 1].name@ != dirs[d].items@[j - 1].name@);
                }
            }
            lemma_perm_unique(built, f);
        } else {
            assert(c2[y] == c1[y]);
        }
    }
}

proof fn lemma_insert_evicted(
    dirs: Seq<DirListing>,
    c1: Seq<Option<Folder>>,
    c2: Seq<Option<Folder>>,
    cur: int,
    d: int,
    built: Seq<FolderEntry>,
)
    requires
        tree_wf(dirs),
        dirs.len() <= usize::MAX,
        c1.len() == dirs.len(),
        c2.len() == c1.len(),
        0 <= d < dirs.len(),
        0 <= cur < dirs.len(),
        c1[d] is None,
        c2[d] is Some,
        forall|y: int| 0 <= y < c1.len() && y != d ==> #[trigger] c2[y] == c1[y],
        built_from(dirs, c1, d, built),
        c2[d]->0.entries@.to_multiset() == built.to_multiset(),
        evicted_unlisted(dirs, c1),
    ensures
        evicted_unlisted(dirs, c2),
{
    reveal(evicted_unlisted);
    let f = c2[d]->0.entries@;
    assert forall|a: int, b: int, i: int|
        0 <= a < c2.len() && 0 <= b < c2.len() && c2[a] is Some && c2[b] is None
            && dirs[b].parent == Some(a as usize) && 0 <= i < c2[a]->0.entries@.len()
            implies !#[trigger] is_folder_line(c2[a]->0.entries@[i], dirs[b].title@) by {
        if a == d {
            if is_folder_line(f[i], dirs[b].title@) {
                lemma_perm_has(built, f, i);
                let j = choose|j: int| 0 <= j < built.len() && built[j] == f[i];
                assert(j != 0);
                assert(b > 0);
                lemma_built_line_is_child(dirs, c1, d, built, j, b);
                assert(c1[b] is Some);
            }
        } else {
            assert(c2[a] == c1[a]);
            assert(c1[b] is None);
            assert(!is_folder_line(c1[a]->0.entries@[i], dirs[b].title@));
        }
    }
}

/// Putting the aggregated folder of `d`, whose lines are a reordering of
/// lines built for its items, into a consistent cache that lacked it keeps
/// the cache consistent.
pub proof fn lemma_consistent_insert(
    dirs: Seq<DirListing>,
    c1: Seq<Option<Folder>>,
    c2: Seq<Option<Folder>>,
    cur: int,
    d: int,
    built: Seq<FolderEntry>,
)
    requires
        tree_wf(dirs),
        dirs.len() <= usize::MAX,
        c1.len() == dirs.len(),
        c2.len() == c1.len(),
        0 <= d < dirs.len(),
        0 <= cur < dirs.len(),
        c1[d] is None,
        c2[d] is Some,
        forall|y: int| 0 <= y < c1.len() && y != d ==> #[trigger] c2[y] == c1[y],
        built_from(dirs, c1, d, built),
        c2[d]->0.entries@.to_multiset() == built.to_multiset(),
        lines_match_totals(dirs, c1),
        focus_listed(dirs, c1, cur),
        titles_unique(c1),
        evicted_unlisted(dirs, c1),
    ensures
        lines_match_totals(dirs, c2),
        focus_listed(dirs, c2, cur),
        titles_unique(c2),
        evicted_unlisted(dirs, c2),
{
    lemma_insert_links(dirs, c1, c2, cur, d, built);
    lemma_insert_focus(dirs, c1, c2, cur, d, built);
    lemma_insert_unique(dirs, c1, c2, cur, d, built);
    lemma_insert_evicted(dirs, c1, c2, cur, d, built);
}

pub proof fn lemma_ancestor_shift(dirs: Seq<DirListing>, c: int, p: int, k: nat)
    requires
        0 <= c < dirs.len(),
        0 <= p < dirs.len(),
        dirs.len() <= usize::MAX,
        dirs[c].parent == Some(p as usize),
    ensures
        ancestor(dirs, c, k + 1) == ancestor(dirs, p, k),
    decreases k,
{
    if k == 0 {
        assert(ancestor(dirs, c, 0) == Some(c));
        assert(ancestor(dirs, p, 0) == Some(p));
    } else {
        lemma_ancestor_shift(dirs, c, p, (k - 1) as nat);
    }
}

pub proof fn lemma_chain_shift(dirs: Seq<DirListing>, cache: Seq<Option<Folder>>, c: int, p: int, k: nat)
    requires
        0 <= c < dirs.len(),
        0 <= p < dirs.len(),
        dirs.len() <= usize::MAX,
        cache.len() == dirs.len(),
        dirs[c].parent == Some(p as usize),
    ensures
        chain_cached(dirs, cache, c, k + 1) == (cache[p] is Some && chain_cached(dirs, cache, p, k)),
    decreases k,
{
    lemma_ancestor_shift(dirs, c, p, k);
    let k1 = (k + 1) as nat;
    assert((k1 - 1) as nat == k);
    assert(chain_cached(dirs, cache, c, k1) == (chain_cached(dirs, cache, c, k) && (ancestor(dirs, c, k1) matches Some(
        a,
    ) && 0 <= a < cache.len() && cache[a] is Some)));
    if k == 0 {
        assert(ancestor(dirs, c, 1) == Some(p));
    } else {
        lemma_chain_shift(dirs, cache, c, p, (k - 1) as nat);
        assert(chain_cached(dirs, cache, p, k) == (chain_cached(dirs, cache, p, (k - 1) as nat) && (ancestor(dirs, p, k) matches Some(
            a,
        ) && 0 <= a < cache.len() && cache[a] is Some)));
    }
}

/// Moving the focus from `p` down to its cached child `c`, which `p` lists,
/// keeps the ancestors of the focus cached and listing.
pub proof fn lemma_focus_down(dirs: Seq<DirListing>, cache: Seq<Option<Folder>>, p: int, c: int)
    requires
        tree_wf(dirs),
        cache.len() == dirs.len(),
        dirs.len() <= usize::MAX,
        0 <= c < dirs.len(),
        0 <= p < dirs.len(),
        dirs[c].parent == Some(p as usize),
        cache[p] is Some,
        focus_listed(dirs, cache, p),
        exists|i: int| 0 <= i < cache[p]->0.entries@.len() && #[trigger] is_folder_line(cache[p]->0.entries@[i], dirs[c].title@),
    ensures
        focus_listed(dirs, cache, c),
{
    reveal(focus_listed);
    assert forall|k: nat| 1 <= k && #[trigger] ancestor(dirs, c, k) is Some implies {
        &&& chain_cached(dirs, cache, c, k)
        &&& exists|i: int|
            0 <= i < cache[ancestor(dirs, c, k)->0]->0.entries@.len() && #[trigger] is_folder_line(
                cache[ancestor(dirs, c, k)->0]->0.entries@[i],
                dirs[ancestor(dirs, c, (k - 1) as nat)->0].title@,
            )
    } by {
        let j = (k - 1) as nat;
        lemma_ancestor_shift(dirs, c, p, j);
        lemma_chain_shift(dirs, cache, c, p, j);
        if j == 0 {
            assert(ancestor(dirs, c, 0) == Some(c));
        } else {
            lemma_ancestor_shift(dirs, c, p, (j - 1) as nat);
            assert(ancestor(dirs, p, j) is Some);
        }
    }
}

/// Moving the focus from `c` up to its parent `p` keeps the ancestors of the
/// focus cached and listing.
pub proof fn lemma_focus_up(dirs: Seq<DirListing>, cache: Seq<Option<Folder>>, c: int, p: int)
    requires
        tree_wf(dirs),
        cache.len() == dirs.len(),
        dirs.len() <= usize::MAX,
        0 <= c < dirs.len(),
        0 <= p < dirs.len(),
        dirs[c].parent == Some(p as usize),
        focus_listed(dirs, cache, c),
    ensures
        focus_listed(dirs, cache, p),
{
    reveal(focus_listed);
    assert forall|k: nat| 1 <= k && #[trigger] ancestor(dirs, p, k) is Some implies {
        &&& chain_cached(dirs, cache, p, k)
        &&& exists|i: int|
            0 <= i < cache[ancestor(dirs, p, k)->0]->0.entries@.len() && #[trigger] is_folder_line(
                cache[ancestor(dirs, p, k)->0]->0.entries@[i],
                dirs[ancestor(dirs, p, (k - 1) as nat)->0].title@,
            )
    } by {
        lemma_ancestor_shift(dirs, c, p, k);
        lemma_ancestor_shift(dirs, c, p, (k - 1) as nat);
        assert(ancestor(dirs, c, k + 1) is Some);
        lemma_chain_shift(dirs, cache, c, p, k);
        assert(((k + 1) - 1) as nat == k);
    }
}

/// What a completed delete does to the cache: the line at `ci` leaves the
/// folder of `cur`, every ancestor has the line of the directory below it
/// lowered by `delta`, the subdirectory `victim` (when the line stood for one)
/// and everything beneath it leave the cache, and nothing else changes.
#[verifier::opaque]
pub open spec fn delete_step(
    dirs: Seq<DirListing>,
    prev: Seq<Option<Folder>>,
    next: Seq<Option<Folder>>,
    cur: int,
    ci: int,
    delta: nat,
    victim: int,
) -> bool {
    let f = prev[cur]->0;
    let e = f.entries@[ci];
    &&& prev.len() == dirs.len()
    &&& next.len() == dirs.len()
    &&& 0 <= cur < dirs.len()
    &&& prev[cur] is Some
    &&& next[cur] is Some
    &&& 0 <= ci < f.entries@.len()
    &&& e.kind != FolderEntryType::Parent
    &&& entry_bytes(e) == delta
    &&& next[cur]->0.entries@ == f.entries@.remove(ci)
    &&& forall|k: nat|
        1 <= k && #[trigger] ancestor(dirs, cur, k) is Some ==> level_lowered(dirs, prev, next, cur, k, delta)
    &&& victim >= 0 ==> 0 < victim < dirs.len() && dirs[victim].parent == Some(cur as usize)
        && is_folder_line(e, dirs[victim].title@)
    &&& victim < 0 ==> forall|b: int|
        0 < b < dirs.len() && dirs[b].parent == Some(cur as usize) ==> !is_folder_line(
            e,
            #[trigger] dirs[b].title@,
        )
    &&& forall|x: int| 0 <= x < dirs.len() && victim >= 0 && #[trigger] within(dirs, x, victim) ==> next[x] is None
    &&& forall|x: int|
        0 <= x < dirs.len() && x != cur && !(victim >= 0 && within(dirs, x, victim)) && (forall|k: nat|
            1 <= k ==> #[trigger] ancestor(dirs, cur, k) != Some(x)) ==> #[trigger] next[x] == prev[x]
}

proof fn lemma_child_titles_differ(dirs: Seq<DirListing>, a: int, b1: int, b2: int)
    requires
        tree_wf(dirs),
        dirs.len() <= usize::MAX,
        0 <= a < dirs.len(),
        0 < b1 < dirs.len(),
        0 < b2 < dirs.len(),
        b1 != b2,
        dirs[b1].parent == Some(a as usize),
        dirs[b2].parent == Some(a as usize),
    ensures
        dirs[b1].title@ != dirs[b2].title@,
{
    assert(crate::tree::listed_by_parent(dirs, b1));
    assert(crate::tree::listed_by_parent(dirs, b2));
    assert(dirs[b1].parent->0 as int == a);
    assert(dirs[b2].parent->0 as int == a);
    let k1 = choose|k: int| 0 <= k < dirs[a].items@.len() && #[trigger] dirs[a].items@[k].dir == Some(b1 as usize);
    let k2 = choose|k: int| 0 <= k < dirs[a].items@.len() && #[trigger] dirs[a].items@[k].dir == Some(b2 as usize);
    assert(k1 != k2);
    assert(dirs[a].items@[k1].name@ != dirs[a].items@[k2].name@);
}

/// A directory beneath `c` other than `c` has a parent that is `c` or beneath it.
proof fn lemma_within_step(dirs: Seq<DirListing>, x: int, c: int)
    requires
        tree_wf(dirs),
        0 <= x < dirs.len(),
        x != c,
        within(dirs, x, c),
    ensures
        x > c,
        dirs[x].parent is Some,
        within(dirs, dirs[x].parent->0 as int, c),
{
}

pub proof fn lemma_chain_all(dirs: Seq<DirListing>, cache: Seq<Option<Folder>>, d: int, k: nat)
    requires
        forall|j: nat| 1 <= j <= k ==> (#[trigger] ancestor(dirs, d, j) matches Some(a) && 0 <= a < cache.len() && cache[a] is Some),
    ensures
        chain_cached(dirs, cache, d, k),
    decreases k,
{
    if k > 0 {
        lemma_chain_all(dirs, cache, d, (k - 1) as nat);
    }
}

proof fn lemma_parent_of_ancestor(dirs: Seq<DirListing>, cur: int, j: nat, b: int, a: int)
    requires
        ancestor(dirs, cur, j) == Some(b),
        dirs[b].parent == Some(a as usize),
        0 <= a <= usize::MAX,
    ensures
        ancestor(dirs, cur, j + 1) == Some(a),
{
    assert(((j + 1) - 1) as nat == j);
}

proof fn lemma_ancestor_injective(dirs: Seq<DirListing>, cur: int, j: nat, k: nat)
    requires
        tree_wf(dirs),
        ancestor(dirs, cur, j) is Some,
        ancestor(dirs, cur, j) == ancestor(dirs, cur, k),
    ensures
        j == k,
{
    if j < k {
        lemma_ancestor_decreasing(dirs, cur, j, k);
    } else if k < j {
        lemma_ancestor_decreasing(dirs, cur, k, j);
    }
}

proof fn lemma_link_at_cur(
    dirs: Seq<DirListing>,
    prev: Seq<Option<Folder>>,
    next: Seq<Option<Folder>>,
    cur: int,
    ci: int,
    delta: nat,
    victim: int,
    a: int,
    b: int,
    i: int,
)
    requires
        tree_wf(dirs),
        dirs.len() <= usize::MAX,
        delete_step(dirs, prev, next, cur, ci, delta, victim),
        lines_match_totals(dirs, prev),
        focus_listed(dirs, prev, cur),
        titles_unique(prev),
        0 <= a < next.len(),
        0 <= b < next.len(),
        next[a] is Some,
        next[b] is Some,
        dirs[b].parent == Some(a as usize),
        0 <= i < next[a]->0.entries@.len(),
        is_folder_line(next[a]->0.entries@[i], dirs[b].title@),
        a == cur,
    ensures
        next[a]->0.entries@[i].size is Some,
        entry_bytes(next[a]->0.entries@[i]) == total_of(next[b]->0.entries@),
{
    reveal(lines_match_totals);
    reveal(titles_unique);
    reveal(delete_step);
    let f = prev[cur]->0;
    let e = f.entries@[ci];
    let t = dirs[b].title@;
    assert(b > 0);
    assert(b > a);
    let i2 = if i < ci { i } else { i + 1 };
    assert(next[a]->0.entries@[i] == f.entries@[i2]);
    assert(!is_folder_line(e, t)) by {
        if is_folder_line(e, t) {
            assert(is_folder_line(f.entries@[ci], f.entries@[i2].title@));
        }
    }
    assert forall|k: nat| 1 <= k implies #[trigger] ancestor(dirs, cur, k) != Some(b) by {
        if ancestor(dirs, cur, k) is Some {
            lemma_ancestor_decreasing(dirs, cur, 0, k);
        }
    }
    assert(next[b] == prev[b]);
    assert(is_folder_line(prev[a]->0.entries@[i2], t));
}

proof fn lemma_link_ancestor_same(
    dirs: Seq<DirListing>,
    prev: Seq<Option<Folder>>,
    next: Seq<Option<Folder>>,
    cur: int,
    ci: int,
    delta: nat,
    victim: int,
    a: int,
    b: int,
    i: int,
    k: nat,
)
    requires
        tree_wf(dirs),
        dirs.len() <= usize::MAX,
        delete_step(dirs, prev, next, cur, ci, delta, victim),
        lines_match_totals(dirs, prev),
        focus_listed(dirs, prev, cur),
        titles_unique(prev),
        0 <= a < next.len(),
        0 <= b < next.len(),
        next[a] is Some,
        next[b] is Some,
        dirs[b].parent == Some(a as usize),
        0 <= i < next[a]->0.entries@.len(),
        is_folder_line(next[a]->0.entries@[i], dirs[b].title@),
        a != cur,
        1 <= k,
        ancestor(dirs, cur, k) == Some(a),
        b == ancestor(dirs, cur, (k - 1) as nat)->0,
    ensures
        next[a]->0.entries@[i].size is Some,
        entry_bytes(next[a]->0.entries@[i]) == total_of(next[b]->0.entries@),
{
    reveal(lines_match_totals);
    reveal(titles_unique);
    reveal(delete_step);
    let f = prev[cur]->0;
    let e = f.entries@[ci];
    let t = dirs[b].title@;
    lemma_total_ge_entry(f.entries@, ci);
    lemma_total_remove(f.entries@, ci);
    assert(b > 0);
    assert(b > a);
    lemma_chain_lines(dirs, prev, cur, k, delta);
    assert(level_lowered(dirs, prev, next, cur, k, delta));
    let kb = (k - 1) as nat;
    assert(ancestor(dirs, cur, kb) is Some);
    lemma_ancestor_in_range(dirs, cur, kb);
    let below = ancestor(dirs, cur, kb)->0;
    assert(dirs[below].parent == Some(a as usize));
    let tb = dirs[below].title@;
    let fl = first_line(prev[a]->0.entries@, tb);
    lemma_first_line_range(prev[a]->0.entries@, tb);
    if i != fl {
        assert(next[a]->0.entries@[i] == prev[a]->0.entries@[i]);
        lemma_first_line_found(prev[a]->0.entries@, tb, i);
        assert(is_folder_line(prev[a]->0.entries@[i], prev[a]->0.entries@[fl].title@));
    }
    if kb == 0 {
        assert(below == cur);
        assert(is_folder_line(prev[a]->0.entries@[fl], dirs[cur].title@));
    } else {
        lemma_chain_lines(dirs, prev, cur, kb, delta);
        assert(level_lowered(dirs, prev, next, cur, kb, delta));
        crate::laws::law_ancestor_lowered_once(
            prev[below]->0,
            next[below]->0,
            dirs[ancestor(dirs, cur, (kb - 1) as nat)->0].title@,
            delta,
        );
        assert(is_folder_line(prev[a]->0.entries@[fl], tb));
    }
}

proof fn lemma_delete_step_lowered(
    dirs: Seq<DirListing>,
    prev: Seq<Option<Folder>>,
    next: Seq<Option<Folder>>,
    cur: int,
    ci: int,
    delta: nat,
    victim: int,
    k: nat,
)
    requires
        delete_step(dirs, prev, next, cur, ci, delta, victim),
        1 <= k,
        ancestor(dirs, cur, k) is Some,
    ensures
        prev.len() == dirs.len(),
        next.len() == dirs.len(),
        level_lowered(dirs, prev, next, cur, k, delta),
{
    reveal(delete_step);
}

proof fn lemma_sibling_untouched(
    dirs: Seq<DirListing>,
    prev: Seq<Option<Folder>>,
    next: Seq<Option<Folder>>,
    cur: int,
    ci: int,
    delta: nat,
    victim: int,
    a: int,
    b: int,
    k: nat,
)
    requires
        tree_wf(dirs),
        dirs.len() <= usize::MAX,
        delete_step(dirs, prev, next, cur, ci, delta, victim),
        0 <= a < dirs.len(),
        0 < b < dirs.len(),
        next[b] is Some,
        dirs[b].parent == Some(a as usize),
        1 <= k,
        ancestor(dirs, cur, k) == Some(a),
        ancestor(dirs, cur, (k - 1) as nat) is Some,
        b != ancestor(dirs, cur, (k - 1) as nat)->0,
    ensures
        next[b] == prev[b],
{
    reveal(delete_step);
    assert(b != cur) by {
        if b == cur {
            lemma_parent_of_ancestor(dirs, cur, 0, b, a);
            lemma_ancestor_injective(dirs, cur, 1, k);
        }
    }
    assert forall|j: nat| 1 <= j implies #[trigger] ancestor(dirs, cur, j) != Some(b) by {
        if ancestor(dirs, cur, j) == Some(b) {
            lemma_parent_of_ancestor(dirs, cur, j, b, a);
            lemma_ancestor_injective(dirs, cur, j + 1, k);
        }
    }
    if victim >= 0 && within(dirs, b, victim) {
        assert(next[b] is None);
    }
}

proof fn lemma_line_untouched(
    dirs: Seq<DirListing>,
    prev: Seq<Option<Folder>>,
    next: Seq<Option<Folder>>,
    cur: int,
    delta: nat,
    a: int,
    i: int,
    k: nat,
    t: Seq<char>,
)
    requires
        1 <= k,
        ancestor(dirs, cur, k) == Some(a),
        level_lowered(dirs, prev, next, cur, k, delta),
        t != dirs[ancestor(dirs, cur, (k - 1) as nat)->0].title@,
        0 <= i < next[a]->0.entries@.len(),
        is_folder_line(next[a]->0.entries@[i], t),
    ensures
        i < prev[a]->0.entries@.len(),
        next[a]->0.entries@[i] == prev[a]->0.entries@[i],
{
    let tb = dirs[ancestor(dirs, cur, (k - 1) as nat)->0].title@;
    let fl = first_line(prev[a]->0.entries@, tb);
    lemma_first_line_range(prev[a]->0.entries@, tb);
    if fl < prev[a]->0.entries@.len() {
        crate::folder::lemma_first_line_is_match(prev[a]->0.entries@, tb);
        assert(i != fl);
    }
}

proof fn lemma_link_ancestor_other(
    dirs: Seq<DirListing>,
    prev: Seq<Option<Folder>>,
    next: Seq<Option<Folder>>,
    cur: int,
    ci: int,
    delta: nat,
    victim: int,
    a: int,
    b: int,
    i: int,
    k: nat,
)
    requires
        tree_wf(dirs),
        dirs.len() <= usize::MAX,
        delete_step(dirs, prev, next, cur, ci, delta, victim),
        lines_match_totals(dirs, prev),
        focus_listed(dirs, prev, cur),
        titles_unique(prev),
        0 <= a < next.len(),
        0 <= b < next.len(),
        next[a] is Some,
        next[b] is Some,
        dirs[b].parent == Some(a as usize),
        0 <= i < next[a]->0.entries@.len(),
        is_folder_line(next[a]->0.entries@[i], dirs[b].title@),
        a != cur,
        1 <= k,
        ancestor(dirs, cur, k) == Some(a),
        ancestor(dirs, cur, (k - 1) as nat) is Some,
        b != ancestor(dirs, cur, (k - 1) as nat)->0,
    ensures
        next[a]->0.entries@[i].size is Some,
        entry_bytes(next[a]->0.entries@[i]) == total_of(next[b]->0.entries@),
{
    reveal(lines_match_totals);
    lemma_delete_step_lowered(dirs, prev, next, cur, ci, delta, victim, k);
    let t = dirs[b].title@;
    assert(b > 0);
    let kb = (k - 1) as nat;
    lemma_ancestor_in_range(dirs, cur, kb);
    let below = ancestor(dirs, cur, kb)->0;
    assert(dirs[below].parent == Some(a as usize));
    if below > 0 {
        lemma_child_titles_differ(dirs, a, b, below);
    } else {
        assert(dirs[0].parent is None);
    }
    lemma_line_untouched(dirs, prev, next, cur, delta, a, i, k, t);
    lemma_sibling_untouched(dirs, prev, next, cur, ci, delta, victim, a, b, k);
    assert(is_folder_line(prev[a]->0.entries@[i], t));
}

proof fn lemma_link_at_ancestor(
    dirs: Seq<DirListing>,
    prev: Seq<Option<Folder>>,
    next: Seq<Option<Folder>>,
    cur: int,
    ci: int,
    delta: nat,
    victim: int,
    a: int,
    b: int,
    i: int,
)
    requires
        tree_wf(dirs),
        dirs.len() <= usize::MAX,
        delete_step(dirs, prev, next, cur, ci, delta, victim),
        lines_match_totals(dirs, prev),
        focus_listed(dirs, prev, cur),
        titles_unique(prev),
        0 <= a < next.len(),
        0 <= b < next.len(),
        next[a] is Some,
        next[b] is Some,
        dirs[b].parent == Some(a as usize),
        0 <= i < next[a]->0.entries@.len(),
        is_folder_line(next[a]->0.entries@[i], dirs[b].title@),
        a != cur,
        exists|k: nat| 1 <= k && #[trigger] ancestor(dirs, cur, k) == Some(a),
    ensures
        next[a]->0.entries@[i].size is Some,
        entry_bytes(next[a]->0.entries@[i]) == total_of(next[b]->0.entries@),
{
    let k = choose|k: nat| 1 <= k && #[trigger] ancestor(dirs, cur, k) == Some(a);
    assert(ancestor(dirs, cur, (k - 1) as nat) is Some);
    if b == ancestor(dirs, cur, (k - 1) as nat)->0 {
        lemma_link_ancestor_same(dirs, prev, next, cur, ci, delta, victim, a, b, i, k);
    } else {
        lemma_link_ancestor_other(dirs, prev, next, cur, ci, delta, victim, a, b, i, k);
    }
}

proof fn lemma_link_elsewhere(
    dirs: Seq<DirListing>,
    prev: Seq<Option<Folder>>,
    next: Seq<Option<Folder>>,
    cur: int,
    ci: int,
    delta: nat,
    victim: int,
    a: int,
    b: int,
    i: int,
)
    requires
        tree_wf(dirs),
        dirs.len() <= usize::MAX,
        delete_step(dirs, prev, next, cur, ci, delta, victim),
        lines_match_totals(dirs, prev),
        focus_listed(dirs, prev, cur),
        titles_unique(prev),
        0 <= a < next.len(),
        0 <= b < next.len(),
        next[a] is Some,
        next[b] is Some,
        dirs[b].parent == Some(a as usize),
        0 <= i < next[a]->0.entries@.len(),
        is_folder_line(next[a]->0.entries@[i], dirs[b].title@),
        a != cur,
        !exists|k: nat| 1 <= k && #[trigger] ancestor(dirs, cur, k) == Some(a),
    ensures
        next[a]->0.entries@[i].size is Some,
        entry_bytes(next[a]->0.entries@[i]) == total_of(next[b]->0.entries@),
{
    reveal(lines_match_totals);
    reveal(delete_step);
    let t = dirs[b].title@;
    assert(b > 0);
    assert(b > a);
    if victim >= 0 && within(dirs, a, victim) {
        assert(next[a] is None);
    }
    assert(next[a] == prev[a]);
    assert(b != cur) by {
        if b == cur {
            lemma_parent_of_ancestor(dirs, cur, 0, b, a);
        }
    }
    assert forall|j: nat| 1 <= j implies #[trigger] ancestor(dirs, cur, j) != Some(b) by {
        if ancestor(dirs, cur, j) == Some(b) {
            lemma_parent_of_ancestor(dirs, cur, j, b, a);
        }
    }
    if victim >= 0 && within(dirs, b, victim) {
        lemma_within_step(dirs, b, victim);
    }
    assert(next[b] == prev[b]);
    assert(is_folder_line(prev[a]->0.entries@[i], t));
}

proof fn lemma_delete_link_one(
    dirs: Seq<DirListing>,
    prev: Seq<Option<Folder>>,
    next: Seq<Option<Folder>>,
    cur: int,
    ci: int,
    delta: nat,
    victim: int,
    a: int,
    b: int,
    i: int,
)
    requires
        tree_wf(dirs),
        dirs.len() <= usize::MAX,
        delete_step(dirs, prev, next, cur, ci, delta, victim),
        lines_match_totals(dirs, prev),
        focus_listed(dirs, prev, cur),
        titles_unique(prev),
        0 <= a < next.len(),
        0 <= b < next.len(),
        next[a] is Some,
        next[b] is Some,
        dirs[b].parent == Some(a as usize),
        0 <= i < next[a]->0.entries@.len(),
        is_folder_line(next[a]->0.entries@[i], dirs[b].title@),
    ensures
        next[a]->0.entries@[i].size is Some,
        entry_bytes(next[a]->0.entries@[i]) == total_of(next[b]->0.entries@),
{
    if a == cur {
        lemma_link_at_cur(dirs, prev, next, cur, ci, delta, victim, a, b, i);
    } else if exists|k: nat| 1 <= k && #[trigger] ancestor(dirs, cur, k) == Some(a) {
        lemma_link_at_ancestor(dirs, prev, next, cur, ci, delta, victim, a, b, i);
    } else {
        lemma_link_elsewhere(dirs, prev, next, cur, ci, delta, victim, a, b, i);
    }
}

proof fn lemma_delete_links(
    dirs: Seq<DirListing>,
    prev: Seq<Option<Folder>>,
    next: Seq<Option<Folder>>,
    cur: int,
    ci: int,
    delta: nat,
    victim: int,
)
    requires
        tree_wf(dirs),
        dirs.len() <= usize::MAX,
        delete_step(dirs, prev, next, cur, ci, delta, victim),
        lines_match_totals(dirs, prev),
        focus_listed(dirs, prev, cur),
        titles_unique(prev),
    ensures
        lines_match_totals(dirs, next),
{
    reveal(lines_match_totals);
    assert forall|a: int, b: int, i: int|
        0 <= a < next.len() && 0 <= b < next.len() && next[a] is Some && next[b] is Some
            && dirs[b].parent == Some(a as usize) && 0 <= i < next[a]->0.entries@.len()
            && #[trigger] is_folder_line(next[a]->0.entries@[i], dirs[b].title@) implies {
        &&& next[a]->0.entries@[i].size is Some
        &&& entry_bytes(next[a]->0.entries@[i]) == total_of(next[b]->0.entries@)
    } by {
        lemma_delete_link_one(dirs, prev, next, cur, ci, delta, victim, a, b, i);
    }
}

proof fn lemma_delete_focus(
    dirs: Seq<DirListing>,
    prev: Seq<Option<Folder>>,
    next: Seq<Option<Folder>>,
    cur: int,
    ci: int,
    delta: nat,
    victim: int,
)
    requires
        tree_wf(dirs),
        dirs.len() <= usize::MAX,
        delete_step(dirs, prev, next, cur, ci, delta, victim),
        lines_match_totals(dirs, prev),
        focus_listed(dirs, prev, cur),
        titles_unique(prev),
        evicted_unlisted(dirs, prev),
    ensures
        focus_listed(dirs, next, cur),
{
    reveal(focus_listed);
    assert forall|k: nat| 1 <= k && #[trigger] ancestor(dirs, cur, k) is Some implies {
        &&& chain_cached(dirs, next, cur, k)
        &&& exists|i: int|
            0 <= i < next[ancestor(dirs, cur, k)->0]->0.entries@.len() && #[trigger] is_folder_line(
                next[ancestor(dirs, cur, k)->0]->0.entries@[i],
                dirs[ancestor(dirs, cur, (k - 1) as nat)->0].title@,
            )
    } by {
        assert forall|j: nat| 1 <= j <= k implies (#[trigger] ancestor(dirs, cur, j) matches Some(a) && 0 <= a
            < next.len() && next[a] is Some) by {
            if j < k {
                lemma_ancestor_decreasing(dirs, cur, j, k);
            }
            lemma_ancestor_in_range(dirs, cur, j);
            lemma_delete_step_lowered(dirs, prev, next, cur, ci, delta, victim, j);
        }
        lemma_chain_all(dirs, next, cur, k);
        lemma_delete_step_lowered(dirs, prev, next, cur, ci, delta, victim, k);
        let a = ancestor(dirs, cur, k)->0;
        let tb = dirs[ancestor(dirs, cur, (k - 1) as nat)->0].title@;
        let w = choose|i: int| 0 <= i < prev[a]->0.entries@.len() && #[trigger] is_folder_line(prev[a]->0.entries@[i], tb);
        let fl = first_line(prev[a]->0.entries@, tb);
        lemma_first_line_range(prev[a]->0.entries@, tb);
        assert(is_folder_line(next[a]->0.entries@[w], tb));
    }
}

proof fn lemma_delete_unique_one(
    dirs: Seq<DirListing>,
    prev: Seq<Option<Folder>>,
    next: Seq<Option<Folder>>,
    cur: int,
    ci: int,
    delta: nat,
    victim: int,
    x: int,
)
    requires
        tree_wf(dirs),
        dirs.len() <= usize::MAX,
        delete_step(dirs, prev, next, cur, ci, delta, victim),
        lines_match_totals(dirs, prev),
        focus_listed(dirs, prev, cur),
        titles_unique(prev),
        evicted_unlisted(dirs, prev),
        0 <= x < next.len(),
        next[x] is Some,
    ensures
        folder_titles_unique(next[x]->0.entries@),
{
    reveal(titles_unique);
    reveal(delete_step);
    if x == cur {
        let s0 = prev[cur]->0.entries@;
        let s1 = next[cur]->0.entries@;
        assert forall|i: int, j: int|
            0 <= i < s1.len() && 0 <= j < s1.len() && i != j && #[trigger] is_folder_line(s1[i], s1[j].title@)
                implies s1[j].kind != FolderEntryType::Folder by {
            let i2 = if i < ci { i } else { i + 1 };
            let j2 = if j < ci { j } else { j + 1 };
            assert(s1[i] == s0[i2] && s1[j] == s0[j2]);
            assert(is_folder_line(s0[i2], s0[j2].title@));
        }
    } else if exists|k: nat| 1 <= k && #[trigger] ancestor(dirs, cur, k) == Some(x) {
        let k = choose|k: nat| 1 <= k && #[trigger] ancestor(dirs, cur, k) == Some(x);
        assert(level_lowered(dirs, prev, next, cur, k, delta));
        let s0 = prev[x]->0.entries@;
        let s1 = next[x]->0.entries@;
        crate::folder::lemma_adjusted_same_shape(
            prev[x]->0,
            next[x]->0,
            dirs[ancestor(dirs, cur, (k - 1) as nat)->0].title@,
            delta,
        );
        assert forall|i: int, j: int|
            0 <= i < s1.len() && 0 <= j < s1.len() && i != j && #[trigger] is_folder_line(s1[i], s1[j].title@)
                implies s1[j].kind != FolderEntryType::Folder by {
            assert(s1[i].title == s0[i].title && s1[i].kind == s0[i].kind);
            assert(s1[j].title == s0[j].title && s1[j].kind == s0[j].kind);
            assert(is_folder_line(s0[i], s0[j].title@));
        }
    } else {
        if victim >= 0 && within(dirs, x, victim) {
            assert(next[x] is None);
        }
        assert(next[x] == prev[x]);
    }
}

proof fn lemma_delete_unique(
    dirs: Seq<DirListing>,
    prev: Seq<Option<Folder>>,
    next: Seq<Option<Folder>>,
    cur: int,
    ci: int,
    delta: nat,
    victim: int,
)
    requires
        tree_wf(dirs),
        dirs.len() <= usize::MAX,
        delete_step(dirs, prev, next, cur, ci, delta, victim),
        lines_match_totals(dirs, prev),
        focus_listed(dirs, prev, cur),
        titles_unique(prev),
        evicted_unlisted(dirs, prev),
    ensures
        titles_unique(next),
{
    reveal(titles_unique);
    lemma_delete_step_lowered_len(dirs, prev, next, cur, ci, delta, victim);
    assert forall|x: int| 0 <= x < next.len() && #[trigger] next[x] is Some implies folder_titles_unique(next[x]->0.entries@) by {
        lemma_delete_unique_one(dirs, prev, next, cur, ci, delta, victim, x);
    }
}

proof fn lemma_delete_evicted_one(
    dirs: Seq<DirListing>,
    prev: Seq<Option<Folder>>,
    next: Seq<Option<Folder>>,
    cur: int,
    ci: int,
    delta: nat,
    victim: int,
    a: int,
    b: int,
    i: int,
)
    requires
        tree_wf(dirs),
        dirs.len() <= usize::MAX,
        delete_step(dirs, prev, next, cur, ci, delta, victim),
        lines_match_totals(dirs, prev),
        focus_listed(dirs, prev, cur),
        titles_unique(prev),
        evicted_unlisted(dirs, prev),
        0 <= a < next.len(),
        0 <= b < next.len(),
        next[a] is Some,
        next[b] is None,
        dirs[b].parent == Some(a as usize),
        0 <= i < next[a]->0.entries@.len(),
    ensures
        !is_folder_line(next[a]->0.entries@[i], dirs[b].title@),
{
    reveal(titles_unique);
    reveal(evicted_unlisted);
    reveal(delete_step);
    let t = dirs[b].title@;
    assert(b > 0);
    assert(b > a);
    let chain_a = exists|k: nat| 1 <= k && #[trigger] ancestor(dirs, cur, k) == Some(a);
    if is_folder_line(next[a]->0.entries@[i], t) {
        if prev[b] is Some {
            // b just left the cache: it lies beneath the victim
            assert(b != cur);
            assert(!exists|k: nat| 1 <= k && #[trigger] ancestor(dirs, cur, k) == Some(b)) by {
                if exists|k: nat| 1 <= k && #[trigger] ancestor(dirs, cur, k) == Some(b) {
                    let k = choose|k: nat| 1 <= k && #[trigger] ancestor(dirs, cur, k) == Some(b);
                    assert(level_lowered(dirs, prev, next, cur, k, delta));
                }
            }
            assert(victim >= 0 && within(dirs, b, victim));
            if b == victim {
                assert(a == cur);
                let f = prev[cur]->0;
                let i2 = if i < ci { i } else { i + 1 };
                assert(next[a]->0.entries@[i] == f.entries@[i2]);
                assert(is_folder_line(f.entries@[ci], f.entries@[i2].title@));
            } else {
                lemma_within_step(dirs, b, victim);
                assert(next[a] is None);
            }
        } else {
            if a == cur {
                let f = prev[cur]->0;
                let i2 = if i < ci { i } else { i + 1 };
                assert(next[a]->0.entries@[i] == f.entries@[i2]);
                assert(!is_folder_line(prev[a]->0.entries@[i2], t));
            } else if chain_a {
                let k = choose|k: nat| 1 <= k && #[trigger] ancestor(dirs, cur, k) == Some(a);
                let kb = (k - 1) as nat;
                assert(ancestor(dirs, cur, kb) is Some);
                lemma_ancestor_in_range(dirs, cur, kb);
                let below = ancestor(dirs, cur, kb)->0;
                assert(dirs[below].parent == Some(a as usize));
                assert(prev[below] is Some) by {
                    if kb > 0 {
                        lemma_chain_lines(dirs, prev, cur, kb, 0);
                    }
                }
                assert(below != b);
                if below > 0 {
                    lemma_child_titles_differ(dirs, a, b, below);
                } else {
                    assert(dirs[0].parent is None);
                }
                lemma_line_untouched(dirs, prev, next, cur, delta, a, i, k, t);
                assert(!is_folder_line(prev[a]->0.entries@[i], t));
            } else {
                if victim >= 0 && within(dirs, a, victim) {
                    assert(next[a] is None);
                }
                assert(next[a] == prev[a]);
                assert(!is_folder_line(prev[a]->0.entries@[i], t));
            }
        }
    }
}

proof fn lemma_delete_evicted(
    dirs: Seq<DirListing>,
    prev: Seq<Option<Folder>>,
    next: Seq<Option<Folder>>,
    cur: int,
    ci: int,
    delta: nat,
    victim: int,
)
    requires
        tree_wf(dirs),
        dirs.len() <= usize::MAX,
        delete_step(dirs, prev, next, cur, ci, delta, victim),
        lines_match_totals(dirs, prev),
        focus_listed(dirs, prev, cur),
        titles_unique(prev),
        evicted_unlisted(dirs, prev),
    ensures
        evicted_unlisted(dirs, next),
{
    reveal(evicted_unlisted);
    lemma_delete_step_lowered_len(dirs, prev, next, cur, ci, delta, victim);
    assert forall|a: int, b: int, i: int|
        0 <= a < next.len() && 0 <= b < next.len() && next[a] is Some && next[b] is None
            && dirs[b].parent == Some(a as usize) && 0 <= i < next[a]->0.entries@.len()
            implies !#[trigger] is_folder_line(next[a]->0.entries@[i], dirs[b].title@) by {
        lemma_delete_evicted_one(dirs, prev, next, cur, ci, delta, victim, a, b, i);
    }
}

proof fn lemma_delete_step_lowered_len(
    dirs: Seq<DirListing>,
    prev: Seq<Option<Folder>>,
    next: Seq<Option<Folder>>,
    cur: int,
    ci: int,
    delta: nat,
    victim: int,
)
    requires
        delete_step(dirs, prev, next, cur, ci, delta, victim),
    ensures
        prev.len() == dirs.len(),
        next.len() == dirs.len(),
{
    reveal(delete_step);
}

/// A completed delete keeps a consistent cache consistent.
pub proof fn lemma_consistent_after_delete(
    dirs: Seq<DirListing>,
    prev: Seq<Option<Folder>>,
    next: Seq<Option<Folder>>,
    cur: int,
    ci: int,
    delta: nat,
    victim: int,
)
    requires
        tree_wf(dirs),
        dirs.len() <= usize::MAX,
        delete_step(dirs, prev, next, cur, ci, delta, victim),
        lines_match_totals(dirs, prev),
        focus_listed(dirs, prev, cur),
        titles_unique(prev),
        evicted_unlisted(dirs, prev),
    ensures
        lines_match_totals(dirs, next),
        focus_listed(dirs, next, cur),
        titles_unique(next),
        evicted_unlisted(dirs, next),
{
    lemma_delete_links(dirs, prev, next, cur, ci, delta, victim);
    lemma_delete_focus(dirs, prev, next, cur, ci, delta, victim);
    lemma_delete_unique(dirs, prev, next, cur, ci, delta, victim);
    lemma_delete_evicted(dirs, prev, next, cur, ci, delta, victim);
}

/// Along the ancestors of a cached `cur` whose total is at least `delta`,
/// each ancestor's first line for the directory below it is found, has a
/// known size of at least `delta`, and the ancestor's total is at least `delta`.
pub proof fn lemma_chain_lines(dirs: Seq<DirListing>, cache: Seq<Option<Folder>>, cur: int, k: nat, delta: nat)
    requires
        tree_wf(dirs),
        cache.len() == dirs.len(),
        0 <= cur < dirs.len(),
        cache[cur] is Some,
        delta <= total_of(cache[cur]->0.entries@),
        lines_match_totals(dirs, cache),
        focus_listed(dirs, cache, cur),
        1 <= k,
        ancestor(dirs, cur, k) is Some,
    ensures
        ({
            let a = cache[ancestor(dirs, cur, k)->0]->0;
            let t = dirs[ancestor(dirs, cur, (k - 1) as nat)->0].title@;
            let i = first_line(a.entries@, t);
            &&& chain_cached(dirs, cache, cur, k)
            &&& 0 <= i < a.entries@.len()
            &&& a.entries@[i].size is Some
            &&& entry_bytes(a.entries@[i]) >= delta
            &&& total_of(a.entries@) >= delta
        }),
    decreases k,
{
    reveal(lines_match_totals);
    reveal(focus_listed);
    reveal(titles_unique);
    reveal(evicted_unlisted);
    let ai = ancestor(dirs, cur, k)->0;
    let bi = ancestor(dirs, cur, (k - 1) as nat)->0;
    assert(ancestor(dirs, cur, (k - 1) as nat) is Some);
    lemma_ancestor_in_range(dirs, cur, k);
    lemma_ancestor_in_range(dirs, cur, (k - 1) as nat);
    assert(chain_cached(dirs, cache, cur, k));
    let t = dirs[bi].title@;
    let a = cache[ai]->0;
    let w = choose|i: int| 0 <= i < a.entries@.len() && #[trigger] is_folder_line(a.entries@[i], t);
    lemma_first_line_found(a.entries@, t, w);
    let i = first_line(a.entries@, t);
    if k > 1 {
        lemma_chain_lines(dirs, cache, cur, (k - 1) as nat, delta);
    } else {
        assert(bi == cur);
    }
    assert(cache[bi] is Some);
    assert(dirs[bi].parent == Some(ai as usize));
    assert(is_folder_line(cache[ai]->0.entries@[i], dirs[bi].title@));
    lemma_total_ge_entry(a.entries@, i);
}

/// Every cached folder at or beneath directory `d` holds, in total, what its
/// directory holds on disk.
pub open spec fn subtree_sound(dirs: Seq<DirListing>, cache: Seq<Option<Folder>>, d: int) -> bool {
    forall|x: int|
        0 <= x < cache.len() && within(dirs, x, d) && #[trigger] cache[x] is Some ==> total_of(
            cache[x]->0.entries@,
        ) == tree_size(dirs, x)
}

/// Each cached folder at or beneath directory `d` has everything beneath it
/// cached as well.
pub open spec fn full_below(dirs: Seq<DirListing>, cache: Seq<Option<Folder>>, d: int) -> bool {
    forall|y: int, z: int|
        0 <= y < cache.len() && 0 <= z < cache.len() && within(dirs, y, d) && #[trigger] cache[y] is Some
            && #[trigger] within(dirs, z, y) ==> cache[z] is Some
}

pub proof fn lemma_within_trans(dirs: Seq<DirListing>, z: int, y: int, c: int)
    requires
        tree_wf(dirs),
        0 <= z < dirs.len(),
        0 <= y < dirs.len(),
        within(dirs, z, y),
        within(dirs, y, c),
    ensures
        within(dirs, z, c),
    decreases z,
{
    if z != y {
        let p = dirs[z].parent->0 as int;
        lemma_within_trans(dirs, p, y, c);
    }
}

pub proof fn lemma_child_within(dirs: Seq<DirListing>, c: int, d: int)
    requires
        tree_wf(dirs),
        0 <= d < dirs.len(),
        0 < c < dirs.len(),
        d <= usize::MAX,
        dirs[c].parent == Some(d as usize),
    ensures
        within(dirs, c, d),
{
    assert(within(dirs, d, d));
}

pub proof fn lemma_within_has_child(dirs: Seq<DirListing>, x: int, d: int)
    requires
        tree_wf(dirs),
        dirs.len() <= usize::MAX,
        0 <= x < dirs.len(),
        0 <= d < dirs.len(),
        x != d,
        within(dirs, x, d),
    ensures
        exists|c: int|
            0 < c < dirs.len() && dirs[c].parent == Some(d as usize) && #[trigger] within(dirs, x, c),
    decreases x,
{
    let p = dirs[x].parent->0 as int;
    assert(within(dirs, x, x));
    if p != d {
        lemma_within_has_child(dirs, p, d);
        let c = choose|c: int| 0 < c < dirs.len() && dirs[c].parent == Some(d as usize) && #[trigger] within(dirs, p, c);
        assert(within(dirs, x, c));
    } else {
        assert(dirs[x].parent == Some(d as usize));
    }
}

} // verus!
