use vstd::prelude::*;

use crate::entry::{entry_bytes, kind_rank, lemma_lex_total, FolderEntry};
use crate::cache::{cache_sound, full_below, subtree_sound};
use crate::tree::within;
use crate::tree::DirListing;
use crate::folder::{
    adjusted, before, first_line, lemma_first_line_range, lemma_total_update, reduced, sorted_by,
    total_of, Folder, SortBy,
};

verus! {

/// No two lines share both kind rank and title.
pub open spec fn distinct_keys(s: Seq<FolderEntry>) -> bool {
    forall|i: int, j: int|
        0 <= i < s.len() && 0 <= j < s.len() && i != j ==> kind_rank(#[trigger] s[i].kind)
            != kind_rank(#[trigger] s[j].kind) || s[i].title@ != s[j].title@
}

proof fn lemma_title_order_total(x: FolderEntry, y: FolderEntry)
    requires
        kind_rank(x.kind) != kind_rank(y.kind) || x.title@ != y.title@,
    ensures
        before(SortBy::Title, x, y) || before(SortBy::Title, y, x),
{
    if kind_rank(x.kind) == kind_rank(y.kind) {
        lemma_lex_total(x.title@, y.title@);
    }
}

/// Two title-ordered arrangements of the same lines, where no two lines share
/// kind and title, are the same arrangement.
pub proof fn law_title_order_is_unique(a: Seq<FolderEntry>, b: Seq<FolderEntry>)
    requires
        sorted_by(SortBy::Title, a),
        sorted_by(SortBy::Title, b),
        a.to_multiset() == b.to_multiset(),
        distinct_keys(a),
    ensures
        a == b,
    decreases a.len(),
{
    broadcast use vstd::seq_lib::group_to_multiset_ensures;

    if a.len() == 0 {
        assert(b.to_multiset().len() == 0);
        assert(b =~= a);
    } else {
        a.to_multiset_ensures();
        b.to_multiset_ensures();
        assert(b.len() == a.len());
        assert(a.to_multiset().count(a[0]) > 0);
        assert(b.contains(a[0]));
        let j = choose|j: int| 0 <= j < b.len() && b[j] == a[0];
        assert(b.to_multiset().count(b[0]) > 0);
        assert(a.contains(b[0]));
        let i = choose|i: int| 0 <= i < a.len() && a[i] == b[0];
        if a[0] != b[0] {
            assert(i != 0 && j != 0);
            assert(!before(SortBy::Title, a[i], a[0]));
            assert(!before(SortBy::Title, b[j], b[0]));
            lemma_title_order_total(a[0], a[i]);
        }
        assert(a[0] == b[0]);
        let a1 = a.drop_first();
        let b1 = b.drop_first();
        assert(a.remove(0) =~= a1);
        assert(b.remove(0) =~= b1);
        assert(a1.to_multiset() == a.to_multiset().remove(a[0]));
        assert(b1.to_multiset() == b.to_multiset().remove(b[0]));
        assert forall|p: int, q: int| 0 <= p < q < a1.len() implies !before(
            SortBy::Title,
            #[trigger] a1[q],
            #[trigger] a1[p],
        ) by {
            assert(a1[q] == a[q + 1] && a1[p] == a[p + 1]);
        }
        assert forall|p: int, q: int| 0 <= p < q < b1.len() implies !before(
            SortBy::Title,
            #[trigger] b1[q],
            #[trigger] b1[p],
        ) by {
            assert(b1[q] == b[q + 1] && b1[p] == b[p + 1]);
        }
        assert forall|p: int, q: int| 0 <= p < a1.len() && 0 <= q < a1.len() && p != q implies kind_rank(
            #[trigger] a1[p].kind,
        ) != kind_rank(#[trigger] a1[q].kind) || a1[p].title@ != a1[q].title@ by {
            assert(a1[q] == a[q + 1] && a1[p] == a[p + 1]);
        }
        law_title_order_is_unique(a1, b1);
        assert(a =~= seq![a[0]] + a1);
        assert(b =~= seq![b[0]] + b1);
    }
}

/// Sorting by size and then by title again gives back a title-ordered folder
/// unchanged, when no two of its lines share kind and title: each sort keeps
/// the same lines, and the title order of a set of lines is unique.
pub proof fn law_toggle_twice_restores(
    orig: Seq<FolderEntry>,
    by_size: Seq<FolderEntry>,
    back: Seq<FolderEntry>,
)
    requires
        sorted_by(SortBy::Title, orig),
        distinct_keys(orig),
        by_size.to_multiset() == orig.to_multiset(),
        sorted_by(SortBy::Size, by_size),
        back.to_multiset() == by_size.to_multiset(),
        sorted_by(SortBy::Title, back),
    ensures
        back == orig,
{
    law_title_order_is_unique(orig, back);
}

/// After a deletion of `delta` bytes beneath it, a cached ancestor whose line
/// for the directory below is found and holds at least `delta` bytes has its
/// total lowered by exactly `delta`; every other line stays as it was.
pub proof fn law_ancestor_lowered_once(o: Folder, n: Folder, t: Seq<char>, delta: nat)
    requires
        adjusted(o, n, t, delta),
        first_line(o.entries@, t) < o.entries@.len(),
        entry_bytes(o.entries@[first_line(o.entries@, t)]) >= delta,
        o.entries@[first_line(o.entries@, t)].size is Some,
    ensures
        total_of(n.entries@) + delta == total_of(o.entries@),
        forall|j: int|
            0 <= j < o.entries@.len() && j != first_line(o.entries@, t) ==> #[trigger] n.entries@[j]
                == o.entries@[j],
        n.entries@.len() == o.entries@.len(),
{
    let i = first_line(o.entries@, t);
    lemma_first_line_range(o.entries@, t);
    lemma_total_update(o.entries@, i, reduced(o.entries@[i], delta));
}

/// A cache that holds no folder yet is sound: every folder later aggregated
/// into it from that start holds, in total, the sum of all regular file sizes
/// beneath its directory.
pub proof fn law_empty_cache_is_sound(dirs: Seq<DirListing>, cache: Seq<Option<Folder>>)
    requires
        forall|x: int| 0 <= x < cache.len() ==> #[trigger] cache[x] is None,
    ensures
        cache_sound(dirs, cache),
{
}

/// With nothing cached at or beneath directory `d`, aggregating `d` starts
/// from a sound, fully cached subtree: its total comes out as the sum of all
/// regular file sizes beneath `d` whenever that fits in 64 bits, and every
/// directory beneath `d` ends up cached.
pub proof fn law_fresh_subtree(dirs: Seq<DirListing>, cache: Seq<Option<Folder>>, d: int)
    requires
        forall|x: int| 0 <= x < cache.len() && #[trigger] within(dirs, x, d) ==> cache[x] is None,
    ensures
        subtree_sound(dirs, cache, d),
        full_below(dirs, cache, d),
{
}

} // verus!
