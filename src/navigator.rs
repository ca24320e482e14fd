use vstd::prelude::*;

use crate::entry::{entry_bytes, FolderEntry, FolderEntryType};
use crate::folder::{
    TEXT_PARENT_DIR, adjust_line, has_parent_line, is_folder_line, lemma_total_ge_entry,
    lemma_total_remove, adjusted, selected_of, sorted_by, total_of, EngineError, Folder, SortBy,
};
use crate::tree::{
    ancestor, item_bytes, lemma_ancestor_decreasing, lemma_ancestor_in_range, size_from,
    tree_size, tree_wf, within, DirListing, DiskItem, DiskTree,
};

use crate::cache::{
    subtree_sound, full_below, lemma_within_trans, lemma_child_within, lemma_within_has_child,
    built_from, cache_grows, cache_sound, chain_cached, delete_step, evicted_unlisted,
    focus_listed, folder_ok, lemma_built_grows, lemma_chain_lines, lemma_chain_shorter,
    lemma_consistent_after_delete, lemma_consistent_frame, lemma_consistent_insert,
    lemma_consistent_reorder, lemma_focus_down, lemma_focus_up, lemma_root_has_no_ancestor,
    level_lowered, lines_match_totals, propagated, titles_unique,
};

verus! {

/// Session state over a directory tree: the folder in focus, the cache of
/// aggregated folders (one slot per directory), the sort mode and whether a
/// delete waits for its confirming second press.
pub struct App {
    tree: DiskTree,
    cache: Vec<Option<Folder>>,
    current: usize,
    confirming_deletion: bool,
    sort_by: SortBy,
}

/// The line a directory item gives before aggregation: a file with its size,
/// a folder with its size unknown.
pub open spec fn scanned_line(item: DiskItem) -> FolderEntry {
    FolderEntry {
        title: item.name,
        kind: if item.dir is Some {
            FolderEntryType::Folder
        } else {
            FolderEntryType::File
        },
        size: if item.dir is Some {
            None
        } else {
            Some(item.size)
        },
    }
}

/// One level of directory `d` as a folder, without descending into its
/// subdirectories: the parent line, then each file with its size and each
/// subdirectory with its size unknown, in title order, cursor on the first line.
pub fn path_to_folder(tree: &DiskTree, d: usize) -> (r: Folder)
    requires
        tree.wf(),
        d < tree@.len(),
    ensures
        r.title == tree@[d as int].title,
        r.cursor_index == 0,
        sorted_by(SortBy::Title, r.entries@),
        exists|p: FolderEntry|
            p.kind == FolderEntryType::Parent && p.title@ == TEXT_PARENT_DIR@ && p.size is None
                && r.entries@.to_multiset() == (seq![p] + tree@[d as int].items@.map_values(
                |i: DiskItem| scanned_line(i),
            )).to_multiset(),
{
    let listing = tree.listing(d);
    let mut folder = Folder::new(listing.title.clone());
    let ghost p = folder.entries@[0];
    let mut k: usize = 0;
    while k < listing.items.len()
        invariant
            *listing == tree@[d as int],
            k <= listing.items@.len(),
            folder.title == listing.title,
            folder.cursor_index == 0,
            folder.entries@ == seq![p] + listing.items@.subrange(0, k as int).map_values(
                |i: DiskItem| scanned_line(i),
            ),
        decreases listing.items.len() - k,
    {
        let item = &listing.items[k];
        let line = match item.dir {
            Some(_) => FolderEntry { title: item.name.clone(), kind: FolderEntryType::Folder, size: None },
            None => FolderEntry {
                title: item.name.clone(),
                kind: FolderEntryType::File,
                size: Some(item.size),
            },
        };
        folder.entries.push(line);
        assert(listing.items@.subrange(0, k + 1).map_values(|i: DiskItem| scanned_line(i))
            =~= listing.items@.subrange(0, k as int).map_values(|i: DiskItem| scanned_line(i)).push(
            scanned_line(listing.items@[k as int]),
        ));
        k = k + 1;
    }
    assert(listing.items@.subrange(0, k as int) =~= listing.items@);
    folder.sort_by_title();
    folder
}

/// In every state the engine reaches, the cursor of each cached folder
/// stands on one of its lines.
pub proof fn law_cursor_in_range(app: App)
    requires
        app.wf(),
    ensures
        forall|x: int|
            0 <= x < app.cached().len() && #[trigger] app.cached()[x] is Some ==> app.cached()[x]->0.cursor_index
                < app.cached()[x]->0.entries@.len(),
{
}

/// In every state the engine reaches, each cached folder has a parent line,
/// a cursor on one of its lines, and a total that fits in 64 bits, so that
/// `Folder::get_size` may be called on it.
pub proof fn law_cached_folders_ok(app: App)
    requires
        app.wf(),
    ensures
        forall|x: int| 0 <= x < app.cached().len() && #[trigger] app.cached()[x] is Some ==> folder_ok(app.cached()[x]->0),
{
}

/// What the engine says the second press of a delete will remove.
#[derive(Debug, Clone, Copy, PartialEq, Eq, Structural)]
pub enum DeleteStep {
    /// Nothing to delete: no folder in focus, or the cursor is on the parent line.
    Nothing,
    /// First press: the delete now waits for a confirming press.
    Armed,
    /// Second press: the caller removes the selected line's file or directory
    /// from disk and reports the outcome to `complete_delete`.
    Confirmed,
}

/// What pressing enter did.
#[derive(Debug, Clone, Copy, PartialEq, Eq, Structural)]
pub enum EnterOutcome {
    /// The focus moved to the parent directory.
    Ascended,
    /// The focus moved into the selected subdirectory.
    Descended,
    /// The selected line is a file: the caller may open it.
    File,
    /// The parent line of the top directory of the tree was selected: the
    /// caller may read the directory above and go on with `enter_parent_tree`.
    AtTop,
    /// Nothing happened.
    Nothing,
}

/// `next` differs from `prev` at most in slot `x`.
pub open spec fn only_slot_changed(prev: Seq<Option<Folder>>, next: Seq<Option<Folder>>, x: int) -> bool {
    &&& next.len() == prev.len()
    &&& forall|y: int| 0 <= y < prev.len() && y != x ==> #[trigger] next[y] == prev[y]
}

/// `n` is `o` with its cursor at `c`.
pub open spec fn moved_to(o: Folder, n: Folder, c: int) -> bool {
    n.title == o.title && n.entries@ == o.entries@ && n.cursor_index == c
}

/// The focus moved from `prev` to directory `t`: its folder is cached and
/// ordered by the sort mode, a folder it already had keeps its title, cursor
/// and lines (only reordered), a folder just aggregated has its cursor on the
/// first line, every other cached folder stays as it was, and no delete waits.
pub open spec fn focus_moved(prev: App, next: App, t: int) -> bool {
    &&& next.current_dir() == t
    &&& next.cached().len() == prev.cached().len()
    &&& next.cached()[t] is Some
    &&& sorted_by(next.sort_mode(), next.cached()[t]->0.entries@)
    &&& !next.confirming()
    &&& forall|x: int|
        0 <= x < prev.cached().len() && x != t && #[trigger] prev.cached()[x] is Some ==> next.cached()[x]
            == prev.cached()[x]
    &&& forall|x: int| 0 <= x < prev.cached().len() && #[trigger] prev.cached()[x] is Some ==> next.cached()[x] is Some
    &&& prev.cached()[t] is Some ==> {
        let f = prev.cached()[t]->0;
        let g = next.cached()[t]->0;
        &&& g.title == f.title
        &&& g.cursor_index == f.cursor_index
        &&& g.entries@.to_multiset() == f.entries@.to_multiset()
        &&& total_of(g.entries@) == total_of(f.entries@)
    }
    &&& prev.cached()[t] is None ==> next.cached()[t]->0.cursor_index == 0
    &&& cache_sound(prev.dirs(), prev.cached()) ==> cache_sound(next.dirs(), next.cached())
}

/// Moving the focus to directory `t` may fail only when `t` is not cached
/// and, the cache being sound, its total does not fit in 64 bits.
pub open spec fn move_may_fail(prev: App, t: int) -> bool {
    &&& prev.cached()[t] is None
    &&& cache_sound(prev.dirs(), prev.cached()) ==> tree_size(prev.dirs(), t) > u64::MAX
}

impl App {
    /// The line under the cursor of the folder in focus, if it is cached.
    pub open spec fn selected(&self) -> Option<FolderEntry> {
        match self.cached()[self.current_dir()] {
            Some(f) => selected_of(f),
            None => None,
        }
    }

    /// The subdirectory of the folder in focus that a line titled `t` stands for.
    pub open spec fn is_child_named(&self, c: int, t: Seq<char>) -> bool {
        0 <= c <= usize::MAX && c < self.dirs().len() && exists|k: int|
            0 <= k < self.dirs()[self.current_dir()].items@.len() && #[trigger] self.dirs()[self.current_dir()].items@[k].dir
                == Some(c as usize) && self.dirs()[self.current_dir()].items@[k].name@ == t
    }

    /// Directory `x` is the subdirectory that the selected folder line stands
    /// for, or lies beneath it.
    pub open spec fn in_deleted_subtree(&self, x: int) -> bool {
        self.selected() matches Some(e) && e.kind == FolderEntryType::Folder && exists|c: int|
            self.is_child_named(c, e.title@) && within(self.dirs(), x, c)
    }

    /// The cache agrees with itself: cached folder lines hold their
    /// subdirectories' totals, the ancestors of the focus are cached and list
    /// the directory below them, folder line titles do not repeat within a
    /// folder, and no folder line stands for a subdirectory left uncached.
    pub open spec fn consistent(&self) -> bool {
        &&& lines_match_totals(self.dirs(), self.cached())
        &&& focus_listed(self.dirs(), self.cached(), self.current_dir())
        &&& titles_unique(self.cached())
        &&& evicted_unlisted(self.dirs(), self.cached())
    }

    pub closed spec fn dirs(&self) -> Seq<DirListing> {
        self.tree@
    }

    pub closed spec fn cached(&self) -> Seq<Option<Folder>> {
        self.cache@
    }

    pub closed spec fn current_dir(&self) -> int {
        self.current as int
    }

    pub closed spec fn confirming(&self) -> bool {
        self.confirming_deletion
    }

    pub closed spec fn sort_mode(&self) -> SortBy {
        self.sort_by
    }

    pub closed spec fn wf(&self) -> bool {
        &&& self.tree.wf()
        &&& self.tree@.len() <= usize::MAX
        &&& self.cache@.len() == self.tree@.len()
        &&& self.current < self.tree@.len()
        &&& forall|x: int| 0 <= x < self.cache@.len() && #[trigger] self.cache@[x] is Some ==> folder_ok(self.cache@[x]->0)
    }

    /// A session on `tree` with nothing aggregated yet, focused on the root.
    pub fn new(tree: DiskTree) -> (r: App)
        requires
            tree.wf(),
        ensures
            r.wf(),
            r.dirs() == tree@,
            r.cached().len() == tree@.len(),
            forall|x: int| 0 <= x < tree@.len() ==> #[trigger] r.cached()[x] is None,
            r.current_dir() == 0,
            !r.confirming(),
            r.sort_mode() == SortBy::Title,
            r.consistent(),
    {
        let n = tree.len();
        let mut cache: Vec<Option<Folder>> = Vec::new();
        let mut i: usize = 0;
        while i < n
            invariant
                i <= n,
                cache@.len() == i,
                forall|x: int| 0 <= x < i ==> #[trigger] cache@[x] is None,
            decreases n - i,
        {
            cache.push(None);
            i = i + 1;
        }
        let r = App { tree, cache, current: 0, confirming_deletion: false, sort_by: SortBy::Title };
        proof {
            reveal(lines_match_totals);
            reveal(focus_listed);
            reveal(titles_unique);
            reveal(evicted_unlisted);
            assert forall|k: nat| 1 <= k && #[trigger] ancestor(r.tree@, 0, k) is Some implies false by {
                lemma_root_has_no_ancestor(r.tree@, k);
            }
        }
        r
    }

    /// Makes sure directory `d` and everything beneath it is aggregated in the
    /// cache, and returns the total of `d`. A folder already cached is not
    /// read again: its stored total is returned and nothing changes.
    pub fn aggregate(&mut self, d: usize) -> (r: Result<u64, EngineError>)
        requires
            old(self).wf(),
            d < old(self).dirs().len(),
        ensures
            final(self).wf(),
            final(self).dirs() == old(self).dirs(),
            final(self).current_dir() == old(self).current_dir(),
            final(self).confirming() == old(self).confirming(),
            final(self).sort_mode() == old(self).sort_mode(),
            cache_grows(old(self).cached(), final(self).cached()),
            forall|x: int| 0 <= x < d ==> #[trigger] final(self).cached()[x] == old(self).cached()[x],
            old(self).cached()[d as int] matches Some(f) ==> final(self).cached() == old(
                self,
            ).cached() && r == Ok::<u64, EngineError>(total_of(f.entries@) as u64),
            r matches Ok(t) ==> final(self).cached()[d as int] matches Some(f) && t == total_of(
                f.entries@,
            ),
            r is Err ==> r == Err::<u64, EngineError>(EngineError::SizeOverflow),
            cache_sound(old(self).dirs(), old(self).cached()) ==> {
                &&& cache_sound(final(self).dirs(), final(self).cached())
                &&& (r is Ok <==> tree_size(old(self).dirs(), d as int) <= u64::MAX)
                &&& r matches Ok(t) ==> t == tree_size(old(self).dirs(), d as int)
            },
            old(self).consistent() ==> final(self).consistent(),
            old(self).cached()[d as int] is None && r is Ok ==> final(self).cached()[d as int]->0.cursor_index == 0,
            old(self).cached()[d as int] is None && r is Ok ==> final(self).cached()[d as int]->0.title
                == old(self).dirs()[d as int].title,
            forall|x: int|
                0 <= x < old(self).cached().len() && #[trigger] final(self).cached()[x] is Some
                    && old(self).cached()[x] is None ==> within(old(self).dirs(), x, d as int),
            full_below(old(self).dirs(), old(self).cached(), d as int) && r is Ok ==> forall|x: int|
                0 <= x < old(self).cached().len() && #[trigger] within(old(self).dirs(), x, d as int)
                    ==> final(self).cached()[x] is Some,
            old(self).cached()[d as int] is None && r is Ok ==> exists|b: Seq<FolderEntry>|
                built_from(old(self).dirs(), final(self).cached(), d as int, b) && b.len()
                    == old(self).dirs()[d as int].items@.len() + 1
                    && #[trigger] final(self).cached()[d as int]->0.entries@.to_multiset() == b.to_multiset(),
            subtree_sound(old(self).dirs(), old(self).cached(), d as int) ==> {
                &&& subtree_sound(final(self).dirs(), final(self).cached(), d as int)
                &&& (r is Ok <==> tree_size(old(self).dirs(), d as int) <= u64::MAX)
                &&& r matches Ok(t) ==> t == tree_size(old(self).dirs(), d as int)
            },
        decreases old(self).dirs().len() - d,
    {
        if let Some(f) = &self.cache[d] {
            proof {
                assert(within(self.tree@, d as int, d as int));
            }
            return Ok(f.get_size());
        }
        let ghost dirs = self.tree@;
        let ghost start = self.cache@;
        let mut folder = Folder::new(self.tree.listing(d).title.clone());
        let count = self.tree.listing(d).items.len();
        let n_dirs = self.tree.len();
        let mut total: u64 = 0;
        let mut k: usize = 0;
        proof {
            assert(folder.entries@.drop_last() =~= Seq::<FolderEntry>::empty());
            assert(total_of(Seq::<FolderEntry>::empty()) == 0);
            assert(total_of(folder.entries@) == 0);
        }
        while k < count
            invariant
                self.wf(),
                self.tree@ == dirs,
                dirs == old(self).tree@,
                tree_wf(dirs),
                d < dirs.len(),
                count == dirs[d as int].items@.len(),
                k <= count,
                self.current == old(self).current,
                self.confirming_deletion == old(self).confirming_deletion,
                self.sort_by == old(self).sort_by,
                cache_grows(start, self.cache@),
                start == old(self).cache@,
                start[d as int] is None,
                forall|x: int| 0 <= x <= d ==> #[trigger] self.cache@[x] == start[x],
                folder.entries@.len() >= 1,
                folder.entries@[0].kind == FolderEntryType::Parent,
                folder.cursor_index == 0,
                folder.title == dirs[d as int].title,
                total == total_of(folder.entries@),
                folder.entries@.len() == k + 1,
                n_dirs == dirs.len(),
                built_from(dirs, self.cache@, d as int, folder.entries@),
                old(self).consistent() ==> self.consistent(),
                cache_sound(dirs, start) ==> {
                    &&& cache_sound(dirs, self.cache@)
                    &&& total + size_from(dirs, d as int, k as int) == tree_size(dirs, d as int)
                },
                subtree_sound(dirs, start, d as int) ==> {
                    &&& subtree_sound(dirs, self.cache@, d as int)
                    &&& total + size_from(dirs, d as int, k as int) == tree_size(dirs, d as int)
                },
                forall|x: int|
                    0 <= x < start.len() && #[trigger] self.cache@[x] is Some && start[x] is None ==> within(
                        dirs,
                        x,
                        d as int,
                    ),
                full_below(dirs, start, d as int) ==> {
                    &&& full_below(dirs, self.cache@, d as int)
                    &&& forall|j: int, x: int|
                        0 <= j < k && 0 <= x < dirs.len() && dirs[d as int].items@[j].dir is Some && #[trigger] within(
                            dirs,
                            x,
                            dirs[d as int].items@[j].dir->0 as int,
                        ) ==> self.cache@[x] is Some
                },
            decreases count - k,
        {
            let name = self.tree.listing(d).items[k].name.clone();
            let sub = self.tree.listing(d).items[k].dir;
            let file_size = self.tree.listing(d).items[k].size;
            proof {
                assert(size_from(dirs, d as int, k as int) == item_bytes(dirs, d as int, k as int)
                    + size_from(dirs, d as int, k + 1));
            }
            let (kind, bytes) = match sub {
                Some(c) => {
                    assert(d < c < dirs.len());
                    assert(item_bytes(dirs, d as int, k as int) == tree_size(dirs, c as int));
                    let ghost before_call = self.cache@;
                    proof {
                        lemma_child_within(dirs, c as int, d as int);
                        if subtree_sound(dirs, start, d as int) {
                            assert forall|x: int|
                                0 <= x < before_call.len() && within(dirs, x, c as int) && #[trigger] before_call[x] is Some
                                    implies total_of(before_call[x]->0.entries@) == tree_size(dirs, x) by {
                                lemma_within_trans(dirs, x, c as int, d as int);
                            }
                        }
                        if full_below(dirs, start, d as int) {
                            assert forall|y: int, z: int|
                                0 <= y < before_call.len() && 0 <= z < before_call.len() && within(dirs, y, c as int)
                                    && #[trigger] before_call[y] is Some && #[trigger] within(dirs, z, y)
                                    implies before_call[z] is Some by {
                                lemma_within_trans(dirs, y, c as int, d as int);
                            }
                        }
                    }
                    let got = self.aggregate(c);
                    proof {
                        lemma_built_grows(dirs, before_call, self.cache@, d as int, folder.entries@);
                        assert forall|x: int|
                            0 <= x < start.len() && #[trigger] self.cache@[x] is Some && start[x] is None
                                implies within(dirs, x, d as int) by {
                            if before_call[x] is None {
                                lemma_within_trans(dirs, x, c as int, d as int);
                            }
                        }
                        if subtree_sound(dirs, start, d as int) {
                            assert forall|x: int|
                                0 <= x < self.cache@.len() && within(dirs, x, d as int) && #[trigger] self.cache@[x] is Some
                                    implies total_of(self.cache@[x]->0.entries@) == tree_size(dirs, x) by {
                                if before_call[x] is Some {
                                    assert(self.cache@[x] == before_call[x]);
                                }
                            }
                        }
                        if full_below(dirs, start, d as int) && got is Ok {
                            assert forall|y: int, z: int|
                                0 <= y < self.cache@.len() && 0 <= z < self.cache@.len() && within(dirs, y, d as int)
                                    && #[trigger] self.cache@[y] is Some && #[trigger] within(dirs, z, y)
                                    implies self.cache@[z] is Some by {
                                if before_call[y] is None {
                                    lemma_within_trans(dirs, z, y, c as int);
                                } else {
                                    assert(before_call[z] is Some);
                                }
                            }
                            assert forall|j: int, x: int|
                                0 <= j < k + 1 && 0 <= x < dirs.len() && dirs[d as int].items@[j].dir is Some && #[trigger] within(
                                    dirs,
                                    x,
                                    dirs[d as int].items@[j].dir->0 as int,
                                ) implies self.cache@[x] is Some by {
                                if j < k {
                                    assert(before_call[x] is Some);
                                }
                            }
                        }
                    }
                    match got {
                        Ok(t) => (FolderEntryType::Folder, t),
                        Err(e) => {
                            return Err(e);
                        },
                    }
                },
                None => (FolderEntryType::File, file_size),
            };
            proof {
                assert(cache_sound(dirs, start) ==> bytes == item_bytes(dirs, d as int, k as int));
                assert(subtree_sound(dirs, start, d as int) ==> bytes == item_bytes(dirs, d as int, k as int));
                if full_below(dirs, start, d as int) && sub is None {
                    assert forall|j: int, x: int|
                        0 <= j < k + 1 && 0 <= x < dirs.len() && dirs[d as int].items@[j].dir is Some && #[trigger] within(
                            dirs,
                            x,
                            dirs[d as int].items@[j].dir->0 as int,
                        ) implies self.cache@[x] is Some by {
                    }
                }
            }
            let next = total.checked_add(bytes);
            match next {
                Some(t) => {
                    let ghost prev = folder.entries@;
                    folder.entries.push(FolderEntry { title: name, size: Some(bytes), kind });
                    proof {
                        assert(folder.entries@.drop_last() =~= prev);
                        assert forall|j: int| 1 <= j < folder.entries@.len() implies {
                            let item = dirs[d as int].items@[j - 1];
                            &&& (#[trigger] folder.entries@[j]).title@ == item.name@
                            &&& (folder.entries@[j].kind == FolderEntryType::Folder) == (item.dir is Some)
                            &&& item.dir is Some ==> {
                                &&& 0 <= item.dir->0 < self.cache@.len()
                                &&& self.cache@[item.dir->0 as int] is Some
                                &&& folder.entries@[j].size is Some
                                &&& entry_bytes(folder.entries@[j]) == total_of(self.cache@[item.dir->0 as int]->0.entries@)
                            }
                        } by {
                            if j < prev.len() {
                                assert(folder.entries@[j] == prev[j]);
                            }
                        }
                    }
                    total = t;
                },
                None => {
                    return Err(EngineError::SizeOverflow);
                },
            }
            k = k + 1;
        }
        assert(has_parent_line(folder.entries@)) by {
            assert(folder.entries@[0].kind == FolderEntryType::Parent);
        }
        let ghost built = folder.entries@;
        let ghost filled = self.cache@;
        folder.sort_by_title();
        self.cache.set(d, Some(folder));
        proof {
            assert(within(dirs, d as int, d as int));
            lemma_built_grows(dirs, filled, self.cache@, d as int, built);
            assert(self.cache@[d as int]->0.entries@.to_multiset() == built.to_multiset());
            if subtree_sound(dirs, start, d as int) {
                assert forall|x: int|
                    0 <= x < self.cache@.len() && within(dirs, x, d as int) && #[trigger] self.cache@[x] is Some
                        implies total_of(self.cache@[x]->0.entries@) == tree_size(dirs, x) by {
                    if x != d {
                        assert(self.cache@[x] == filled[x]);
                    }
                }
            }
            if full_below(dirs, start, d as int) {
                assert forall|x: int| 0 <= x < start.len() && #[trigger] within(dirs, x, d as int) implies self.cache@[x] is Some by {
                    if x != d {
                        lemma_within_has_child(dirs, x, d as int);
                        let c = choose|c: int| 0 < c < dirs.len() && dirs[c].parent == Some(d as usize) && #[trigger] within(dirs, x, c);
                        assert(crate::tree::listed_by_parent(dirs, c));
                        assert(dirs[c].parent->0 as int == d);
                        let j = choose|j: int| 0 <= j < dirs[d as int].items@.len() && #[trigger] dirs[d as int].items@[j].dir == Some(c as usize);
                        assert(filled[x] is Some);
                    }
                }
            }
        }
        proof {
            if old(self).consistent() {
                assert(dirs.len() == self.cache@.len());
                lemma_consistent_insert(dirs, filled, self.cache@, self.current as int, d as int, built);
            }
        }
        Ok(total)
    }

    /// Walks up from directory `d` while the ancestors are cached, lowering in
    /// each the line of the directory below it by `delta`.
    fn propagate_size_delta(&mut self, d: usize, delta: u64)
        requires
            old(self).wf(),
            d < old(self).dirs().len(),
        ensures
            final(self).wf(),
            final(self).dirs() == old(self).dirs(),
            final(self).current_dir() == old(self).current_dir(),
            final(self).confirming() == old(self).confirming(),
            final(self).sort_mode() == old(self).sort_mode(),
            propagated(old(self).dirs(), old(self).cached(), final(self).cached(), d as int, delta as nat),
    {
        let ghost dirs = self.tree@;
        let ghost start = self.cache@;
        let ghost mut m: nat = 0;
        let mut child = d;
        while true
            invariant
                self.wf(),
                self.tree@ == dirs,
                dirs == old(self).tree@,
                start == old(self).cache@,
                tree_wf(dirs),
                self.current == old(self).current,
                self.confirming_deletion == old(self).confirming_deletion,
                self.sort_by == old(self).sort_by,
                d < dirs.len(),
                child < dirs.len(),
                self.cache@.len() == start.len(),
                ancestor(dirs, d as int, m) == Some(child as int),
                chain_cached(dirs, start, d as int, m),
                forall|k: nat|
                    1 <= k <= m ==> #[trigger] level_lowered(dirs, start, self.cache@, d as int, k, delta as nat),
                forall|x: int|
                    0 <= x < start.len() && (forall|k: nat|
                        1 <= k <= m ==> #[trigger] ancestor(dirs, d as int, k) != Some(x)) ==> #[trigger] self.cache@[x]
                        == start[x],
            ensures
                !chain_cached(dirs, start, d as int, m + 1),
            decreases child,
        {
            proof {
                lemma_ancestor_in_range(dirs, d as int, m);
            }
            let parent = self.tree.parent_of(child);
            let a = match parent {
                Some(a) => a,
                None => {
                    break;
                },
            };
            assert(ancestor(dirs, d as int, m + 1) == Some(a as int));
            proof {
                lemma_ancestor_in_range(dirs, d as int, m + 1);
                assert forall|k: nat| 1 <= k <= m implies #[trigger] ancestor(dirs, d as int, k) != Some(a as int) by {
                    lemma_ancestor_decreasing(dirs, d as int, k, m + 1);
                }
                assert(self.cache@[a as int] == start[a as int]);
            }
            if self.cache[a].is_none() {
                break;
            }
            proof {
                assert(chain_cached(dirs, start, d as int, m + 1));
            }
            let title = self.tree.listing(child).title.clone();
            let ghost before = self.cache@;
            match &mut self.cache[a] {
                Some(f) => {
                    adjust_line(f, &title, delta);
                },
                None => {},
            }
            proof {
                assert(self.cache@.len() == before.len());
                assert forall|y: int| 0 <= y < before.len() && y != a implies #[trigger] self.cache@[y] == before[y] by {}
                assert(self.cache@[a as int] is Some);
                assert(adjusted(start[a as int]->0, self.cache@[a as int]->0, dirs[child as int].title@, delta as nat));
                assert forall|k: nat| 1 <= k <= m implies #[trigger] ancestor(dirs, d as int, k)->0 != a as int by {
                    lemma_ancestor_decreasing(dirs, d as int, k, m + 1);
                }
                assert forall|k: nat| 1 <= k <= m + 1 implies #[trigger] level_lowered(dirs, start, self.cache@, d as int, k, delta as nat) by {
                    if k <= m {
                        lemma_ancestor_decreasing(dirs, d as int, k, m + 1);
                        lemma_ancestor_in_range(dirs, d as int, k);
                        assert(level_lowered(dirs, start, before, d as int, k, delta as nat));
                        assert(self.cache@[ancestor(dirs, d as int, k)->0] == before[ancestor(dirs, d as int, k)->0]);
                    }
                }
                m = m + 1;
            }
            child = a;
        }
        proof {
            assert forall|k: nat| 1 <= k && #[trigger] chain_cached(dirs, start, d as int, k) implies k <= m && level_lowered(dirs, start, self.cache@, d as int, k, delta as nat) by {
                if k > m {
                    lemma_chain_shorter(dirs, start, d as int, m + 1, k);
                }
            }
            assert forall|x: int|
                0 <= x < start.len() && (forall|k: nat|
                    1 <= k && #[trigger] chain_cached(dirs, start, d as int, k) ==> ancestor(dirs, d as int, k) != Some(
                        x,
                    )) implies #[trigger] self.cache@[x] == start[x] by {
                assert forall|k: nat| 1 <= k <= m implies #[trigger] ancestor(dirs, d as int, k) != Some(x) by {
                    lemma_chain_shorter(dirs, start, d as int, k, m);
                }
            }
        }
    }

    /// Aggregates the directory in focus; the session's start.
    pub fn init(&mut self) -> (r: Result<u64, EngineError>)
        requires
            old(self).wf(),
        ensures
            final(self).wf(),
            final(self).dirs() == old(self).dirs(),
            final(self).current_dir() == old(self).current_dir(),
            cache_grows(old(self).cached(), final(self).cached()),
            r matches Ok(t) ==> final(self).cached()[final(self).current_dir()] matches Some(f)
                && t == total_of(f.entries@),
            cache_sound(old(self).dirs(), old(self).cached()) ==> {
                &&& cache_sound(final(self).dirs(), final(self).cached())
                &&& (r is Ok <==> tree_size(old(self).dirs(), old(self).current_dir()) <= u64::MAX)
                &&& r matches Ok(t) ==> t == tree_size(old(self).dirs(), old(self).current_dir())
            },
            old(self).consistent() ==> final(self).consistent(),
            final(self).sort_mode() == old(self).sort_mode(),
            final(self).confirming() == old(self).confirming(),
            old(self).cached()[old(self).current_dir()] is None && r is Ok ==> final(self).cached()[final(self).current_dir()]->0.cursor_index == 0,
            full_below(old(self).dirs(), old(self).cached(), old(self).current_dir()) && r is Ok ==> forall|x: int|
                0 <= x < old(self).cached().len() && #[trigger] within(old(self).dirs(), x, old(self).current_dir())
                    ==> final(self).cached()[x] is Some,
            old(self).cached()[old(self).current_dir()] is None && r is Ok ==> exists|b: Seq<FolderEntry>|
                built_from(old(self).dirs(), final(self).cached(), old(self).current_dir(), b) && b.len()
                    == old(self).dirs()[old(self).current_dir()].items@.len() + 1
                    && #[trigger] final(self).cached()[old(self).current_dir()]->0.entries@.to_multiset() == b.to_multiset(),
            subtree_sound(old(self).dirs(), old(self).cached(), old(self).current_dir()) ==> {
                &&& subtree_sound(final(self).dirs(), final(self).cached(), old(self).current_dir())
                &&& (r is Ok <==> tree_size(old(self).dirs(), old(self).current_dir()) <= u64::MAX)
                &&& r matches Ok(t) ==> t == tree_size(old(self).dirs(), old(self).current_dir())
            },
    {
        let d = self.current;
        self.aggregate(d)
    }

    /// The folder in focus, for display.
    pub fn current_view(&self) -> (r: Option<&Folder>)
        requires
            self.wf(),
        ensures
            r matches Some(f) ==> self.cached()[self.current_dir()] == Some(*f),
            r is None ==> self.cached()[self.current_dir()] is None,
    {
        match &self.cache[self.current] {
            Some(f) => Some(f),
            None => None,
        }
    }

    /// Index of the directory in focus.
    pub fn current_index(&self) -> (r: usize)
        ensures
            r == self.current_dir(),
    {
        self.current
    }

    /// Whether a delete waits for its confirming press.
    pub fn is_confirming_deletion(&self) -> (r: bool)
        ensures
            r == self.confirming(),
    {
        self.confirming_deletion
    }

    /// The active sort mode.
    pub fn get_sort_by(&self) -> (r: SortBy)
        ensures
            r == self.sort_mode(),
    {
        self.sort_by
    }

    /// The tree the session works on.
    pub fn tree(&self) -> (r: &DiskTree)
        ensures
            r@ == self.dirs(),
    {
        &self.tree
    }

    /// The cached folder of directory `d`, if any.
    pub fn cached_folder(&self, d: usize) -> (r: Option<&Folder>)
        requires
            self.wf(),
        ensures
            d < self.cached().len() ==> (r matches Some(f) ==> self.cached()[d as int] == Some(*f)),
            d < self.cached().len() ==> (r is None ==> self.cached()[d as int] is None),
            d >= self.cached().len() ==> r is None,
    {
        if d >= self.cache.len() {
            return None;
        }
        match &self.cache[d] {
            Some(f) => Some(f),
            None => None,
        }
    }

    /// Moves the cursor one line up, staying on the first line; clears a pending delete.
    pub fn cursor_up(&mut self)
        requires
            old(self).wf(),
        ensures
            final(self).wf(),
            final(self).dirs() == old(self).dirs(),
            final(self).current_dir() == old(self).current_dir(),
            final(self).sort_mode() == old(self).sort_mode(),
            !final(self).confirming(),
            only_slot_changed(old(self).cached(), final(self).cached(), old(self).current_dir()),
            old(self).cached()[old(self).current_dir()] matches Some(f) ==> {
                &&& final(self).cached()[old(self).current_dir()] is Some
                &&& moved_to(
                    f,
                    final(self).cached()[old(self).current_dir()]->0,
                    if f.cursor_index > 0 {
                        f.cursor_index - 1
                    } else {
                        0
                    },
                )
            },
            old(self).cached()[old(self).current_dir()] is None ==> final(self).cached() == old(
                self,
            ).cached(),
            old(self).consistent() ==> final(self).consistent(),
    {
        let cur = self.current;
        match &mut self.cache[cur] {
            Some(f) => {
                if f.cursor_index > 0 {
                    f.cursor_index = f.cursor_index - 1;
                }
            },
            None => {},
        }
        self.confirming_deletion = false;
        proof {
            if old(self).consistent() {
                lemma_consistent_frame(self.tree@, old(self).cache@, self.cache@, self.current as int);
            }
        }
    }

    /// Moves the cursor one line down, staying on the last line; clears a pending delete.
    pub fn cursor_down(&mut self)
        requires
            old(self).wf(),
        ensures
            final(self).wf(),
            final(self).dirs() == old(self).dirs(),
            final(self).current_dir() == old(self).current_dir(),
            final(self).sort_mode() == old(self).sort_mode(),
            !final(self).confirming(),
            only_slot_changed(old(self).cached(), final(self).cached(), old(self).current_dir()),
            old(self).cached()[old(self).current_dir()] matches Some(f) ==> {
                &&& final(self).cached()[old(self).current_dir()] is Some
                &&& moved_to(
                    f,
                    final(self).cached()[old(self).current_dir()]->0,
                    if f.cursor_index + 1 < f.entries@.len() {
                        f.cursor_index + 1
                    } else {
                        f.cursor_index as int
                    },
                )
            },
            old(self).cached()[old(self).current_dir()] is None ==> final(self).cached() == old(
                self,
            ).cached(),
            old(self).consistent() ==> final(self).consistent(),
    {
        let cur = self.current;
        match &mut self.cache[cur] {
            Some(f) => {
                if f.entries.len() > 0 && f.cursor_index < f.entries.len() - 1 {
                    f.cursor_index = f.cursor_index + 1;
                }
            },
            None => {},
        }
        self.confirming_deletion = false;
        proof {
            if old(self).consistent() {
                lemma_consistent_frame(self.tree@, old(self).cache@, self.cache@, self.current as int);
            }
        }
    }

    /// Orders the folder in focus by the active sort mode.
    fn sort_current_folder(&mut self)
        requires
            old(self).wf(),
        ensures
            final(self).wf(),
            final(self).dirs() == old(self).dirs(),
            final(self).current_dir() == old(self).current_dir(),
            final(self).confirming() == old(self).confirming(),
            final(self).sort_mode() == old(self).sort_mode(),
            only_slot_changed(old(self).cached(), final(self).cached(), old(self).current_dir()),
            old(self).cached()[old(self).current_dir()] matches Some(f) ==> {
                let nf = final(self).cached()[old(self).current_dir()]->0;
                &&& final(self).cached()[old(self).current_dir()] is Some
                &&& nf.title == f.title
                &&& nf.cursor_index == f.cursor_index
                &&& nf.entries@.to_multiset() == f.entries@.to_multiset()
                &&& nf.entries@.len() == f.entries@.len()
                &&& sorted_by(old(self).sort_mode(), nf.entries@)
                &&& total_of(nf.entries@) == total_of(f.entries@)
            },
            old(self).cached()[old(self).current_dir()] is None ==> final(self).cached() == old(
                self,
            ).cached(),
            old(self).consistent() ==> final(self).consistent(),
            cache_sound(old(self).dirs(), old(self).cached()) ==> cache_sound(final(self).dirs(), final(self).cached()),
    {
        let cur = self.current;
        let mode = self.sort_by;
        match &mut self.cache[cur] {
            Some(f) => {
                f.sort(mode);
            },
            None => {},
        }
        proof {
            if cache_sound(old(self).tree@, old(self).cache@) {
                assert forall|x: int|
                    0 <= x < self.cache@.len() && #[trigger] self.cache@[x] is Some implies total_of(
                        self.cache@[x]->0.entries@,
                    ) == tree_size(self.tree@, x) by {
                    assert(old(self).cache@[x] is Some);
                }
            }
            if old(self).consistent() {
                if old(self).cache@[cur as int] is Some {
                    assert forall|k: nat| 1 <= k && #[trigger] ancestor(self.tree@, cur as int, k) is Some implies ancestor(
                        self.tree@,
                        cur as int,
                        k,
                    ) != Some(cur as int) by {
                        lemma_ancestor_decreasing(self.tree@, cur as int, 0, k);
                    }
                    lemma_consistent_reorder(self.tree@, old(self).cache@, self.cache@, cur as int, cur as int);
                } else {
                    assert(self.cache@ == old(self).cache@);
                }
            }
        }
    }

    /// Flips the sort mode between title and size and reorders the folder in focus.
    pub fn toggle_sort(&mut self)
        requires
            old(self).wf(),
        ensures
            final(self).wf(),
            final(self).dirs() == old(self).dirs(),
            final(self).current_dir() == old(self).current_dir(),
            final(self).confirming() == old(self).confirming(),
            final(self).sort_mode() == match old(self).sort_mode() {
                SortBy::Title => SortBy::Size,
                SortBy::Size => SortBy::Title,
            },
            only_slot_changed(old(self).cached(), final(self).cached(), old(self).current_dir()),
            old(self).cached()[old(self).current_dir()] matches Some(f) ==> {
                let nf = final(self).cached()[old(self).current_dir()]->0;
                &&& final(self).cached()[old(self).current_dir()] is Some
                &&& nf.title == f.title
                &&& nf.cursor_index == f.cursor_index
                &&& nf.entries@.to_multiset() == f.entries@.to_multiset()
                &&& nf.entries@.len() == f.entries@.len()
                &&& sorted_by(final(self).sort_mode(), nf.entries@)
                &&& nf.entries@[0].kind == FolderEntryType::Parent
                &&& total_of(nf.entries@) == total_of(f.entries@)
            },
            old(self).cached()[old(self).current_dir()] is None ==> final(self).cached() == old(
                self,
            ).cached(),
            old(self).consistent() ==> final(self).consistent(),
    {
        self.sort_by = match self.sort_by {
            SortBy::Title => SortBy::Size,
            SortBy::Size => SortBy::Title,
        };
        self.sort_current_folder();
        proof {
            let cur = self.current as int;
            if self.cache@[cur] is Some {
                assert(folder_ok(self.cache@[cur]->0));
                crate::folder::law_sorted_parent_first(self.sort_by, self.cache@[cur]->0.entries@);
            }
        }
    }

    /// Moves the focus into the subdirectory under the cursor, aggregating it
    /// first if it is not cached, and orders it by the active sort mode.
    /// Returns whether the focus moved; on an error nothing but the cache's
    /// newly aggregated folders changes.
    pub fn descend(&mut self) -> (r: Result<bool, EngineError>)
        requires
            old(self).wf(),
        ensures
            final(self).wf(),
            final(self).dirs() == old(self).dirs(),
            final(self).sort_mode() == old(self).sort_mode(),
            r == Ok::<bool, EngineError>(false) <==> !(old(self).selected() matches Some(e) && e.kind
                == FolderEntryType::Folder && exists|c: int| old(self).is_child_named(c, e.title@)),
            r == Ok::<bool, EngineError>(false) ==> final(self).cached() == old(self).cached()
                && final(self).current_dir() == old(self).current_dir() && final(self).confirming()
                == old(self).confirming(),
            r == Ok::<bool, EngineError>(true) ==> {
                &&& old(self).selected() matches Some(e) && old(self).is_child_named(
                    final(self).current_dir(),
                    e.title@,
                )
                &&& focus_moved(*old(self), *final(self), final(self).current_dir())
            },
            r is Err ==> {
                &&& r == Err::<bool, EngineError>(EngineError::SizeOverflow)
                &&& final(self).current_dir() == old(self).current_dir()
                &&& cache_grows(old(self).cached(), final(self).cached())
                &&& old(self).selected() matches Some(e) && exists|c: int|
                    old(self).is_child_named(c, e.title@) && move_may_fail(*old(self), c)
            },
            old(self).consistent() ==> final(self).consistent(),
    {
        let cur = self.current;
        let title = match &self.cache[cur] {
            Some(f) => match f.get_selected_entry() {
                Ok(e) => {
                    if e.kind != FolderEntryType::Folder {
                        return Ok(false);
                    }
                    e.title.clone()
                },
                Err(_) => {
                    return Ok(false);
                },
            },
            None => {
                return Ok(false);
            },
        };
        let c = match self.tree.child_named(cur, &title) {
            Some(c) => c,
            None => {
                return Ok(false);
            },
        };
        assert(self.is_child_named(c as int, title@));
        let ghost sel = old(self).selected()->0;
        assert(self.cache@ == old(self).cache@);
        match self.aggregate(c) {
            Ok(_) => {},
            Err(e) => {
                assert(move_may_fail(*old(self), c as int));
                assert(old(self).is_child_named(c as int, sel.title@));
                return Err(e);
            },
        }
        proof {
            if old(self).consistent() {
                reveal(focus_listed);
                let f = self.cache@[cur as int]->0;
                assert(f == old(self).cache@[cur as int]->0);
                assert(is_folder_line(f.entries@[f.cursor_index as int], self.tree@[c as int].title@));
                lemma_focus_down(self.tree@, self.cache@, cur as int, c as int);
            }
        }
        self.current = c;
        self.sort_current_folder();
        self.confirming_deletion = false;
        Ok(true)
    }

    /// Moves the focus to the parent directory, aggregating it first if it is
    /// not cached, and orders it by the active sort mode. At the root of the
    /// tree nothing happens. Returns whether the focus moved.
    pub fn ascend(&mut self) -> (r: Result<bool, EngineError>)
        requires
            old(self).wf(),
        ensures
            final(self).wf(),
            final(self).dirs() == old(self).dirs(),
            final(self).sort_mode() == old(self).sort_mode(),
            r == Ok::<bool, EngineError>(false) <==> old(self).dirs()[old(self).current_dir()].parent is None,
            r == Ok::<bool, EngineError>(false) ==> final(self).cached() == old(self).cached()
                && final(self).current_dir() == old(self).current_dir() && final(self).confirming()
                == old(self).confirming(),
            r == Ok::<bool, EngineError>(true) ==> {
                &&& old(self).dirs()[old(self).current_dir()].parent == Some(final(self).current_dir() as usize)
                &&& focus_moved(*old(self), *final(self), final(self).current_dir())
            },
            r is Err ==> {
                &&& r == Err::<bool, EngineError>(EngineError::SizeOverflow)
                &&& final(self).current_dir() == old(self).current_dir()
                &&& cache_grows(old(self).cached(), final(self).cached())
                &&& old(self).dirs()[old(self).current_dir()].parent matches Some(p) && move_may_fail(
                    *old(self),
                    p as int,
                )
            },
            old(self).consistent() ==> final(self).consistent(),
    {
        let p = match self.tree.parent_of(self.current) {
            Some(p) => p,
            None => {
                return Ok(false);
            },
        };
        proof {
            if self.current > 0 {
                assert(self.tree@[self.current as int].parent is Some);
            }
        }
        match self.aggregate(p) {
            Ok(_) => {},
            Err(e) => {
                return Err(e);
            },
        }
        proof {
            if old(self).consistent() {
                lemma_focus_up(self.tree@, self.cache@, self.current as int, p as int);
            }
        }
        self.current = p;
        self.sort_current_folder();
        self.confirming_deletion = false;
        Ok(true)
    }

    /// Activates the line under the cursor: the parent line moves the focus
    /// up (at the top of the tree it is reported to the caller), a folder
    /// line moves it into that folder, a file line is reported to the caller
    /// to open. A move fails only on a directory not cached whose total does
    /// not fit in 64 bits. A pending delete is cleared in every case.
    pub fn on_enter(&mut self) -> (r: Result<EnterOutcome, EngineError>)
        requires
            old(self).wf(),
        ensures
            final(self).wf(),
            final(self).dirs() == old(self).dirs(),
            final(self).sort_mode() == old(self).sort_mode(),
            !final(self).confirming(),
            old(self).consistent() ==> final(self).consistent(),
            ({
                let stay = final(self).cached() == old(self).cached() && final(self).current_dir() == old(
                    self,
                ).current_dir();
                let failed = final(self).current_dir() == old(self).current_dir() && cache_grows(
                    old(self).cached(),
                    final(self).cached(),
                );
                match old(self).selected() {
                    Some(e) => if e.kind == FolderEntryType::Parent {
                        match old(self).dirs()[old(self).current_dir()].parent {
                            Some(p) => (r == Ok::<EnterOutcome, EngineError>(EnterOutcome::Ascended)
                                && focus_moved(*old(self), *final(self), p as int)) || (r == Err::<
                                EnterOutcome,
                                EngineError,
                            >(EngineError::SizeOverflow) && failed && move_may_fail(*old(self), p as int)),
                            None => r == Ok::<EnterOutcome, EngineError>(EnterOutcome::AtTop) && stay,
                        }
                    } else if e.kind == FolderEntryType::Folder {
                        if exists|c: int| old(self).is_child_named(c, e.title@) {
                            (r == Ok::<EnterOutcome, EngineError>(EnterOutcome::Descended)
                                && old(self).is_child_named(final(self).current_dir(), e.title@)
                                && focus_moved(*old(self), *final(self), final(self).current_dir())) || (r
                                == Err::<EnterOutcome, EngineError>(EngineError::SizeOverflow) && failed
                                && exists|c: int| old(self).is_child_named(c, e.title@) && move_may_fail(*old(self), c))
                        } else {
                            r == Ok::<EnterOutcome, EngineError>(EnterOutcome::Nothing) && stay
                        }
                    } else {
                        r == Ok::<EnterOutcome, EngineError>(EnterOutcome::File) && stay
                    },
                    None => r == Ok::<EnterOutcome, EngineError>(EnterOutcome::Nothing) && stay,
                }
            }),
    {
        let cur = self.current;
        let kind = match &self.cache[cur] {
            Some(f) => match f.get_selected_entry() {
                Ok(e) => e.kind,
                Err(_) => {
                    self.confirming_deletion = false;
                    return Ok(EnterOutcome::Nothing);
                },
            },
            None => {
                self.confirming_deletion = false;
                return Ok(EnterOutcome::Nothing);
            },
        };
        let outcome = match kind {
            FolderEntryType::Parent => match self.ascend() {
                Ok(true) => Ok(EnterOutcome::Ascended),
                Ok(false) => Ok(EnterOutcome::AtTop),
                Err(e) => Err(e),
            },
            FolderEntryType::Folder => match self.descend() {
                Ok(true) => Ok(EnterOutcome::Descended),
                Ok(false) => Ok(EnterOutcome::Nothing),
                Err(e) => Err(e),
            },
            FolderEntryType::File => Ok(EnterOutcome::File),
        };
        self.confirming_deletion = false;
        outcome
    }

    /// Continues the session on `tree`, the subtree of the directory above
    /// the top of the current tree, read anew: the focus goes to its top
    /// directory, which is aggregated and ordered by the active sort mode.
    pub fn enter_parent_tree(&mut self, tree: DiskTree) -> (r: Result<u64, EngineError>)
        requires
            tree.wf(),
        ensures
            final(self).wf(),
            final(self).consistent(),
            final(self).dirs() == tree@,
            final(self).current_dir() == 0,
            final(self).sort_mode() == old(self).sort_mode(),
            !final(self).confirming(),
            r is Ok <==> tree_size(tree@, 0) <= u64::MAX,
            r matches Ok(t) ==> {
                &&& t == tree_size(tree@, 0)
                &&& final(self).cached()[0] is Some
                &&& total_of(final(self).cached()[0]->0.entries@) == t
                &&& sorted_by(final(self).sort_mode(), final(self).cached()[0]->0.entries@)
                &&& final(self).cached()[0]->0.cursor_index == 0
            },
    {
        let mode = self.sort_by;
        let mut next = App::new(tree);
        next.sort_by = mode;
        proof {
            crate::laws::law_empty_cache_is_sound(next.tree@, next.cache@);
        }
        let r = next.init();
        if r.is_ok() {
            next.sort_current_folder();
        }
        *self = next;
        r
    }

    /// A press of delete. The first press on a file or folder line only arms
    /// the delete; the second, with no cursor move in between, confirms it:
    /// the caller then removes the line's file or directory from disk and
    /// reports the outcome to `complete_delete`. Neither press changes the cache.
    pub fn request_delete(&mut self) -> (r: DeleteStep)
        requires
            old(self).wf(),
        ensures
            final(self).wf(),
            final(self).dirs() == old(self).dirs(),
            final(self).cached() == old(self).cached(),
            final(self).current_dir() == old(self).current_dir(),
            final(self).sort_mode() == old(self).sort_mode(),
            match old(self).selected() {
                Some(e) => if e.kind == FolderEntryType::Parent {
                    r == DeleteStep::Nothing && final(self).confirming() == old(self).confirming()
                } else if old(self).confirming() {
                    r == DeleteStep::Confirmed && final(self).confirming()
                } else {
                    r == DeleteStep::Armed && final(self).confirming()
                },
                None => r == DeleteStep::Nothing && final(self).confirming() == old(self).confirming(),
            },
            final(self).consistent() == old(self).consistent(),
    {
        let cur = self.current;
        let kind = match &self.cache[cur] {
            Some(f) => match f.get_selected_entry() {
                Ok(e) => e.kind,
                Err(_) => {
                    return DeleteStep::Nothing;
                },
            },
            None => {
                return DeleteStep::Nothing;
            },
        };
        if kind == FolderEntryType::Parent {
            DeleteStep::Nothing
        } else if self.confirming_deletion {
            DeleteStep::Confirmed
        } else {
            self.confirming_deletion = true;
            DeleteStep::Armed
        }
    }

    /// Drops from the cache directory `c` and everything beneath it.
    fn evict_subtree(&mut self, c: usize)
        requires
            old(self).wf(),
        ensures
            final(self).wf(),
            final(self).dirs() == old(self).dirs(),
            final(self).current_dir() == old(self).current_dir(),
            final(self).confirming() == old(self).confirming(),
            final(self).sort_mode() == old(self).sort_mode(),
            final(self).cached().len() == old(self).cached().len(),
            forall|x: int|
                0 <= x < old(self).cached().len() ==> #[trigger] final(self).cached()[x] == if within(
                    old(self).dirs(),
                    x,
                    c as int,
                ) {
                    None
                } else {
                    old(self).cached()[x]
                },
    {
        let n = self.cache.len();
        let mut x: usize = 0;
        while x < n
            invariant
                self.wf(),
                n == self.cache@.len(),
                x <= n,
                self.tree == old(self).tree,
                self.current == old(self).current,
                self.confirming_deletion == old(self).confirming_deletion,
                self.sort_by == old(self).sort_by,
                self.cache@.len() == old(self).cache@.len(),
                forall|y: int|
                    0 <= y < n ==> #[trigger] self.cache@[y] == if y < x && within(self.tree@, y, c as int) {
                        None
                    } else {
                        old(self).cache@[y]
                    },
            decreases n - x,
        {
            if self.tree.is_within(x, c) {
                self.cache.set(x, None);
            }
            x = x + 1;
        }
    }

    /// Finishes a confirmed delete. When the removal from disk succeeded, the
    /// selected line's size is taken off the line of each cached ancestor, a
    /// deleted directory and everything beneath it leave the cache, and the
    /// line leaves the folder in focus, the cursor kept in range. When it
    /// failed, or no delete was armed on a file or folder line, the cache is
    /// left as it was. The pending delete is cleared either way. Returns
    /// whether a line was removed.
    pub fn complete_delete(&mut self, removed: bool) -> (r: bool)
        requires
            old(self).wf(),
        ensures
            final(self).wf(),
            final(self).dirs() == old(self).dirs(),
            final(self).current_dir() == old(self).current_dir(),
            final(self).sort_mode() == old(self).sort_mode(),
            !final(self).confirming(),
            r <==> removed && old(self).confirming() && (old(self).selected() matches Some(e) && e.kind
                != FolderEntryType::Parent),
            !r ==> final(self).cached() == old(self).cached(),
            r ==> {
                let cur = old(self).current_dir();
                let dirs = old(self).dirs();
                let f = old(self).cached()[cur]->0;
                let e = f.entries@[f.cursor_index as int];
                &&& final(self).cached().len() == old(self).cached().len()
                &&& final(self).cached()[cur] is Some
                &&& final(self).cached()[cur]->0.title == f.title
                &&& final(self).cached()[cur]->0.entries@ == f.entries@.remove(f.cursor_index as int)
                &&& final(self).cached()[cur]->0.cursor_index == if f.cursor_index < f.entries@.len() - 1 {
                    f.cursor_index as int
                } else {
                    f.entries@.len() - 2
                }
                &&& forall|k: nat|
                    1 <= k && #[trigger] chain_cached(dirs, old(self).cached(), cur, k) ==> level_lowered(
                        dirs,
                        old(self).cached(),
                        final(self).cached(),
                        cur,
                        k,
                        entry_bytes(e),
                    )
                &&& forall|x: int|
                    0 <= x < old(self).cached().len() && #[trigger] old(self).in_deleted_subtree(x)
                        ==> final(self).cached()[x] is None
                &&& forall|x: int|
                    0 <= x < old(self).cached().len() && x != cur && !old(self).in_deleted_subtree(x) && (
                    forall|k: nat|
                        1 <= k && #[trigger] chain_cached(dirs, old(self).cached(), cur, k) ==> ancestor(
                            dirs,
                            cur,
                            k,
                        ) != Some(x)) ==> #[trigger] final(self).cached()[x] == old(self).cached()[x]
            },
            r && old(self).consistent() ==> {
                let cur = old(self).current_dir();
                let dirs = old(self).dirs();
                let f = old(self).cached()[cur]->0;
                let e = f.entries@[f.cursor_index as int];
                &&& total_of(final(self).cached()[cur]->0.entries@) + entry_bytes(e) == total_of(f.entries@)
                &&& forall|k: nat|
                    1 <= k && #[trigger] ancestor(dirs, cur, k) is Some ==> {
                        let x = ancestor(dirs, cur, k)->0;
                        &&& final(self).cached()[x] is Some
                        &&& total_of(final(self).cached()[x]->0.entries@) + entry_bytes(e) == total_of(
                            old(self).cached()[x]->0.entries@,
                        )
                    }
            },
            old(self).consistent() ==> final(self).consistent(),
    {
        let cur = self.current;
        if !removed || !self.confirming_deletion {
            self.confirming_deletion = false;
            return false;
        }
        let (kind, title, bytes) = match &self.cache[cur] {
            Some(f) => match f.get_selected_entry() {
                Ok(e) => (e.kind, e.title.clone(), e.bytes()),
                Err(_) => {
                    self.confirming_deletion = false;
                    return false;
                },
            },
            None => {
                self.confirming_deletion = false;
                return false;
            },
        };
        if kind == FolderEntryType::Parent {
            self.confirming_deletion = false;
            return false;
        }
        let ghost before = self.cache@;
        let ghost dirs = self.tree@;
        self.propagate_size_delta(cur, bytes);
        proof {
            assert forall|k: nat| 1 <= k && #[trigger] chain_cached(dirs, before, cur as int, k) implies ancestor(
                dirs,
                cur as int,
                k,
            ) != Some(cur as int) by {
                lemma_chain_shorter(dirs, before, cur as int, k, k);
                assert(ancestor(dirs, cur as int, k) is Some);
                lemma_ancestor_decreasing(dirs, cur as int, 0, k);
            }
            assert(self.cache@[cur as int] == before[cur as int]);
        }
        let ghost propagated_cache = self.cache@;
        let ghost mut victim: int = -1;
        if kind == FolderEntryType::Folder {
            match self.tree.child_named(cur, &title) {
                Some(c) => {
                    assert(self.is_child_named(c as int, title@));
                    assert(cur < c);
                    self.evict_subtree(c);
                    assert(!within(dirs, cur as int, c as int));
                    proof {
                        victim = c as int;
                    }
                },
                None => {},
            }
        }
        proof {
            // the subdirectory a folder line stands for is unique
            assert(tree_wf(dirs));
            assert forall|c: int| kind == FolderEntryType::Folder && #[trigger] old(self).is_child_named(c, title@) implies c == victim by {
                assert(old(self).dirs() == dirs);
                assert(old(self).current_dir() == cur as int);
                let k1 = choose|k: int|
                    0 <= k < dirs[cur as int].items@.len() && #[trigger] dirs[cur as int].items@[k].dir
                        == Some(c as usize) && dirs[cur as int].items@[k].name@ == title@;
                assert(dirs[cur as int].items@[k1].dir is Some);
                assert(dirs[cur as int].items@[k1].name@ == title@);
                if victim >= 0 {
                    let k2 = choose|k: int|
                        0 <= k < dirs[cur as int].items@.len() && #[trigger] dirs[cur as int].items@[k].dir
                            == Some(victim as usize) && dirs[cur as int].items@[k].name@ == title@;
                    assert(k1 == k2);
                    assert(c as usize == victim as usize);
                } else {
                    assert(false);
                }
            }
        }
        assert(self.cache@[cur as int] == before[cur as int]);
        let ghost evicted_cache = self.cache@;
        match &mut self.cache[cur] {
            Some(f) => {
                let ghost prev = f.entries@;
                let ghost at = f.cursor_index as int;
                f.remove_selected();
                proof {
                    crate::folder::lemma_total_remove(prev, at);
                }
            },
            None => {},
        }
        proof {
            assert forall|y: int| 0 <= y < evicted_cache.len() && y != cur implies #[trigger] self.cache@[y] == evicted_cache[y] by {}
            assert forall|k: nat| 1 <= k && #[trigger] chain_cached(dirs, before, cur as int, k) implies level_lowered(
                dirs,
                before,
                self.cache@,
                cur as int,
                k,
                bytes as nat,
            ) by {
                lemma_chain_shorter(dirs, before, cur as int, k, k);
                lemma_ancestor_decreasing(dirs, cur as int, 0, k);
                lemma_ancestor_in_range(dirs, cur as int, k);
                let a = ancestor(dirs, cur as int, k)->0;
                assert(level_lowered(dirs, before, propagated_cache, cur as int, k, bytes as nat));
                if victim >= 0 {
                    assert(!within(dirs, a, victim));
                }
                assert(self.cache@[a] == propagated_cache[a]);
            }
            assert(old(self).selected() matches Some(e) && e.title@ == title@ && e.kind == kind
                && entry_bytes(e) == bytes);
            assert forall|x: int|
                0 <= x < before.len() && x != cur && !old(self).in_deleted_subtree(x) && (forall|k: nat|
                    1 <= k && #[trigger] chain_cached(dirs, before, cur as int, k) ==> ancestor(
                        dirs,
                        cur as int,
                        k,
                    ) != Some(x)) implies #[trigger] self.cache@[x] == before[x] by {
                assert(propagated_cache[x] == before[x]);
                if victim >= 0 {
                    assert(old(self).is_child_named(victim, title@));
                    assert(!within(dirs, x, victim));
                }
                assert(evicted_cache[x] == propagated_cache[x]);
            }
            if old(self).consistent() {
                let f0 = before[cur as int]->0;
                lemma_total_ge_entry(f0.entries@, f0.cursor_index as int);
                assert forall|k: nat| 1 <= k && #[trigger] ancestor(dirs, cur as int, k) is Some implies {
                    let x = ancestor(dirs, cur as int, k)->0;
                    &&& self.cache@[x] is Some
                    &&& total_of(self.cache@[x]->0.entries@) + bytes == total_of(before[x]->0.entries@)
                } by {
                    lemma_chain_lines(dirs, before, cur as int, k, bytes as nat);
                    let x = ancestor(dirs, cur as int, k)->0;
                    let t = dirs[ancestor(dirs, cur as int, (k - 1) as nat)->0].title@;
                    lemma_chain_shorter(dirs, before, cur as int, k, k);
                    lemma_ancestor_decreasing(dirs, cur as int, 0, k);
                    lemma_ancestor_in_range(dirs, cur as int, k);
                    assert(level_lowered(dirs, before, propagated_cache, cur as int, k, bytes as nat));
                    if victim >= 0 {
                        assert(!within(dirs, x, victim));
                    }
                    assert(self.cache@[x] == propagated_cache[x]);
                    crate::laws::law_ancestor_lowered_once(before[x]->0, self.cache@[x]->0, t, bytes as nat);
                }
            }
            assert forall|x: int| 0 <= x < before.len() && #[trigger] old(self).in_deleted_subtree(x) implies self.cache@[x] is None by {
                let c = choose|c: int| old(self).is_child_named(c, title@) && within(dirs, x, c);
                assert(c == victim);
                if x == cur {
                    assert(!within(dirs, cur as int, victim));
                }
            }
            if old(self).consistent() {
                let f0 = before[cur as int]->0;
                let ci = f0.cursor_index as int;
                let e = f0.entries@[ci];
                assert(dirs.len() <= usize::MAX);
                assert forall|k: nat| 1 <= k && #[trigger] ancestor(dirs, cur as int, k) is Some implies level_lowered(
                    dirs,
                    before,
                    self.cache@,
                    cur as int,
                    k,
                    bytes as nat,
                ) by {
                    reveal(focus_listed);
                    assert(chain_cached(dirs, before, cur as int, k));
                }
                if victim >= 0 {
                    let k = choose|k: int|
                        0 <= k < dirs[cur as int].items@.len() && #[trigger] dirs[cur as int].items@[k].dir
                            == Some(victim as usize) && dirs[cur as int].items@[k].name@ == title@;
                    assert(dirs[victim].parent == Some(cur as usize));
                    assert(is_folder_line(e, dirs[victim].title@));
                } else {
                    assert forall|b: int|
                        0 < b < dirs.len() && dirs[b].parent == Some(cur as usize) implies !is_folder_line(
                            e,
                            #[trigger] dirs[b].title@,
                        ) by {
                        if kind == FolderEntryType::Folder {
                            assert(crate::tree::listed_by_parent(dirs, b));
                            assert(dirs[b].parent->0 as int == cur as int);
                            let kb = choose|k: int| 0 <= k < dirs[cur as int].items@.len() && #[trigger] dirs[cur as int].items@[k].dir == Some(b as usize);
                            assert(dirs[cur as int].items@[kb].dir is Some);
                        }
                    }
                }
                assert forall|x: int| 0 <= x < dirs.len() && victim >= 0 && #[trigger] within(dirs, x, victim) implies self.cache@[x] is None by {
                    assert(old(self).in_deleted_subtree(x)) by {
                        assert(old(self).is_child_named(victim, title@));
                    }
                }
                assert forall|x: int|
                    0 <= x < dirs.len() && x != cur && !(victim >= 0 && within(dirs, x, victim)) && (forall|k: nat|
                        1 <= k ==> #[trigger] ancestor(dirs, cur as int, k) != Some(x)) implies #[trigger] self.cache@[x] == before[x] by {
                    if old(self).in_deleted_subtree(x) {
                        let c = choose|c: int| old(self).is_child_named(c, title@) && within(dirs, x, c);
                        assert(c == victim);
                    }
                }
                assert(delete_step(dirs, before, self.cache@, cur as int, ci, bytes as nat, victim)) by {
                    reveal(delete_step);
                }
                lemma_consistent_after_delete(dirs, before, self.cache@, cur as int, ci, bytes as nat, victim);
            }
        }
        self.confirming_deletion = false;
        true
    }
}

} // verus!
