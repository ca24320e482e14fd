use vstd::prelude::*;

use crate::entry::{
    entry_bytes, kind_rank, lemma_lex_irreflexive, lemma_lex_transitive, size_before,
    title_before, FolderEntry, FolderEntryType,
};

verus! {

/// Title of the synthetic line that leads to the parent folder.
pub const TEXT_PARENT_DIR: &'static str = "..";

/// How the lines of a folder are ordered.
#[derive(Debug, Clone, Copy, PartialEq, Eq, Structural)]
pub enum SortBy {
    Title,
    Size,
}

/// Errors that the engine reports instead of panicking.
#[derive(Debug, Clone, Copy, PartialEq, Eq, Structural)]
pub enum EngineError {
    /// The cursor of a folder points past its last line.
    CursorOutOfBounds,
    /// A total does not fit in 64 bits.
    SizeOverflow,
}

/// The listing of one directory, with the line the cursor is on.
#[derive(Debug, Clone)]
pub struct Folder {
    pub title: String,
    pub cursor_index: usize,
    pub entries: Vec<FolderEntry>,
}

/// Whether `x` comes strictly before `y` in the order `by`.
pub open spec fn before(by: SortBy, x: FolderEntry, y: FolderEntry) -> bool {
    match by {
        SortBy::Title => title_before(x, y),
        SortBy::Size => size_before(x, y),
    }
}

/// No line comes strictly before an earlier one.
pub open spec fn sorted_by(by: SortBy, s: Seq<FolderEntry>) -> bool {
    forall|i: int, j: int| 0 <= i < j < s.len() ==> !before(by, #[trigger] s[j], #[trigger] s[i])
}

/// Sum of the sizes of the lines, an unknown size counting as zero.
pub open spec fn total_of(s: Seq<FolderEntry>) -> nat
    decreases s.len(),
{
    if s.len() == 0 {
        0
    } else {
        total_of(s.drop_last()) + entry_bytes(s.last())
    }
}

/// Largest known size among the lines, zero when there is none.
pub open spec fn max_of(s: Seq<FolderEntry>) -> nat
    decreases s.len(),
{
    if s.len() == 0 {
        0
    } else {
        let m = max_of(s.drop_last());
        if entry_bytes(s.last()) > m {
            entry_bytes(s.last())
        } else {
            m
        }
    }
}

/// The line the cursor is on, if the cursor is in range.
pub open spec fn selected_of(f: Folder) -> Option<FolderEntry> {
    if f.cursor_index < f.entries@.len() {
        Some(f.entries@[f.cursor_index as int])
    } else {
        None
    }
}

pub proof fn lemma_total_concat(a: Seq<FolderEntry>, b: Seq<FolderEntry>)
    ensures
        total_of(a + b) == total_of(a) + total_of(b),
    decreases b.len(),
{
    if b.len() > 0 {
        assert((a + b).drop_last() =~= a + b.drop_last());
        lemma_total_concat(a, b.drop_last());
    } else {
        assert(a + b =~= a);
    }
}

pub proof fn lemma_total_insert(s: Seq<FolderEntry>, i: int, x: FolderEntry)
    requires
        0 <= i <= s.len(),
    ensures
        total_of(s.insert(i, x)) == total_of(s) + entry_bytes(x),
{
    let a = s.subrange(0, i);
    let b = s.subrange(i, s.len() as int);
    assert(s =~= a + b);
    assert(s.insert(i, x) =~= a + (seq![x] + b));
    lemma_total_concat(a, b);
    lemma_total_concat(a, seq![x] + b);
    lemma_total_concat(seq![x], b);
    assert(seq![x].drop_last() =~= Seq::<FolderEntry>::empty());
    assert(total_of(Seq::<FolderEntry>::empty()) == 0);
    assert(seq![x].last() == x);
    assert(total_of(seq![x]) == entry_bytes(x));
}

pub proof fn lemma_total_remove(s: Seq<FolderEntry>, i: int)
    requires
        0 <= i < s.len(),
    ensures
        total_of(s.remove(i)) + entry_bytes(s[i]) == total_of(s),
{
    assert(s.remove(i).insert(i, s[i]) =~= s);
    lemma_total_insert(s.remove(i), i, s[i]);
}

pub proof fn lemma_total_prefix(s: Seq<FolderEntry>, i: int)
    requires
        0 <= i <= s.len(),
    ensures
        total_of(s.subrange(0, i)) <= total_of(s),
{
    assert(s =~= s.subrange(0, i) + s.subrange(i, s.len() as int));
    lemma_total_concat(s.subrange(0, i), s.subrange(i, s.len() as int));
}

pub proof fn lemma_before_irreflexive(by: SortBy, x: FolderEntry)
    ensures
        !before(by, x, x),
{
    lemma_lex_irreflexive(x.title@);
}

pub proof fn lemma_before_transitive(by: SortBy, x: FolderEntry, y: FolderEntry, z: FolderEntry)
    requires
        before(by, x, y),
        before(by, y, z),
    ensures
        before(by, x, z),
{
    if by == SortBy::Title && kind_rank(x.kind) == kind_rank(y.kind) && kind_rank(y.kind)
        == kind_rank(z.kind) {
        lemma_lex_transitive(x.title@, y.title@, z.title@);
    }
}

pub proof fn lemma_multiset_insert(s: Seq<FolderEntry>, i: int, x: FolderEntry)
    requires
        0 <= i <= s.len(),
    ensures
        s.insert(i, x).to_multiset() == s.to_multiset().insert(x),
{
    broadcast use vstd::seq_lib::group_to_multiset_ensures;

    let t = s.insert(i, x);
    assert(t.remove(i) =~= s);
    assert(t.contains(x)) by {
        assert(t[i] == x);
    }
    assert(t.to_multiset().remove(x) == s.to_multiset());
    assert(t.to_multiset() =~= s.to_multiset().insert(x));
}

/// Whether `x` comes strictly before `y` in the order `by`.
pub fn comes_before(by: SortBy, x: &FolderEntry, y: &FolderEntry) -> (r: bool)
    ensures
        r == before(by, *x, *y),
{
    match by {
        SortBy::Title => x.title_precedes(y),
        SortBy::Size => x.size_precedes(y),
    }
}

/// `entries` ordered by `by`: the same lines, no line after one that it comes before.
pub fn sort_entries(entries: &Vec<FolderEntry>, by: SortBy) -> (r: Vec<FolderEntry>)
    ensures
        r@.to_multiset() == entries@.to_multiset(),
        sorted_by(by, r@),
        total_of(r@) == total_of(entries@),
        r@.len() == entries@.len(),
{
    let mut r: Vec<FolderEntry> = Vec::new();
    let mut k: usize = 0;
    assert(entries@.subrange(0, 0) =~= Seq::<FolderEntry>::empty());
    while k < entries.len()
        invariant
            k <= entries.len(),
            r@.to_multiset() == entries@.subrange(0, k as int).to_multiset(),
            sorted_by(by, r@),
            total_of(r@) == total_of(entries@.subrange(0, k as int)),
            r@.len() == k,
        decreases entries.len() - k,
    {
        let x = entries[k].duplicate();
        let mut p: usize = 0;
        while p < r.len() && !comes_before(by, &x, &r[p])
            invariant
                p <= r.len(),
                forall|q: int| 0 <= q < p ==> !before(by, x, #[trigger] r@[q]),
            decreases r.len() - p,
        {
            p = p + 1;
        }
        let ghost old_r = r@;
        proof {
            lemma_multiset_insert(old_r, p as int, x);
            lemma_total_insert(old_r, p as int, x);
            assert(entries@.subrange(0, k + 1) =~= entries@.subrange(0, k as int).push(x));
            vstd::seq_lib::to_multiset_build(entries@.subrange(0, k as int), x);
            assert(entries@.subrange(0, k + 1).drop_last() =~= entries@.subrange(0, k as int));
        }
        r.insert(p, x);
        proof {
            let n = r@;
            assert forall|i: int, j: int| 0 <= i < j < n.len() implies !before(
                by,
                #[trigger] n[j],
                #[trigger] n[i],
            ) by {
                if i < p && j < p {
                    assert(n[i] == old_r[i] && n[j] == old_r[j]);
                } else if i > p && j > p {
                    assert(n[i] == old_r[i - 1] && n[j] == old_r[j - 1]);
                } else if i < p && j > p {
                    assert(n[i] == old_r[i] && n[j] == old_r[j - 1]);
                } else if j == p {
                    assert(n[i] == old_r[i]);
                } else {
                    // i == p < j: the line after x is not before x
                    assert(n[j] == old_r[j - 1]);
                    assert(before(by, x, old_r[p as int]));
                    if before(by, old_r[j - 1], x) {
                        lemma_before_transitive(by, old_r[j - 1], x, old_r[p as int]);
                        if j - 1 == p {
                            lemma_before_irreflexive(by, old_r[p as int]);
                        }
                    }
                }
            }
        }
        k = k + 1;
    }
    assert(entries@.subrange(0, k as int) =~= entries@);
    r
}

/// Some line of `s` is the parent line.
pub open spec fn has_parent_line(s: Seq<FolderEntry>) -> bool {
    exists|i: int| 0 <= i < s.len() && (#[trigger] s[i]).kind == FolderEntryType::Parent
}

pub proof fn lemma_parent_kept(a: Seq<FolderEntry>, b: Seq<FolderEntry>)
    requires
        a.to_multiset() == b.to_multiset(),
        has_parent_line(a),
    ensures
        has_parent_line(b),
{
    broadcast use vstd::seq_lib::group_to_multiset_ensures;

    let i = choose|i: int| 0 <= i < a.len() && (#[trigger] a[i]).kind == FolderEntryType::Parent;
    assert(a.contains(a[i]));
    assert(a.to_multiset().count(a[i]) > 0);
    assert(b.to_multiset().count(a[i]) > 0);
    assert(b.contains(a[i]));
    let j = choose|j: int| 0 <= j < b.len() && b[j] == a[i];
    assert(b[j].kind == FolderEntryType::Parent);
}

/// Whether a line is the folder line titled `t`.
pub open spec fn is_folder_line(e: FolderEntry, t: Seq<char>) -> bool {
    e.kind == FolderEntryType::Folder && e.title@ == t
}

/// Index of the first folder line titled `t`, or the length when there is none.
pub open spec fn first_line(s: Seq<FolderEntry>, t: Seq<char>) -> int
    decreases s.len(),
{
    if s.len() == 0 {
        0
    } else if is_folder_line(s[0], t) {
        0
    } else {
        1 + first_line(s.drop_first(), t)
    }
}

/// `e` with its size lowered by `delta`, stopping at zero; an unknown size stays unknown.
pub open spec fn reduced(e: FolderEntry, delta: nat) -> FolderEntry {
    FolderEntry {
        title: e.title,
        kind: e.kind,
        size: match e.size {
            Some(n) => Some(
                if n >= delta {
                    (n - delta) as u64
                } else {
                    0u64
                },
            ),
            None => None,
        },
    }
}

/// `n` is `o` with its first folder line titled `t` lowered by `delta`.
pub open spec fn adjusted(o: Folder, n: Folder, t: Seq<char>, delta: nat) -> bool {
    let i = first_line(o.entries@, t);
    &&& n.title == o.title
    &&& n.cursor_index == o.cursor_index
    &&& if i < o.entries@.len() {
        n.entries@ == o.entries@.update(i, reduced(o.entries@[i], delta))
    } else {
        n.entries@ == o.entries@
    }
}

pub proof fn lemma_first_line_range(s: Seq<FolderEntry>, t: Seq<char>)
    ensures
        0 <= first_line(s, t) <= s.len(),
    decreases s.len(),
{
    if s.len() > 0 {
        lemma_first_line_range(s.drop_first(), t);
    }
}

pub proof fn lemma_first_line_found(s: Seq<FolderEntry>, t: Seq<char>, i: int)
    requires
        0 <= i < s.len(),
        is_folder_line(s[i], t),
    ensures
        0 <= first_line(s, t) <= i,
        is_folder_line(s[first_line(s, t)], t),
    decreases i,
{
    if !is_folder_line(s[0], t) {
        assert(s.drop_first()[i - 1] == s[i]);
        lemma_first_line_found(s.drop_first(), t, i - 1);
        assert(s.drop_first()[first_line(s.drop_first(), t)] == s[first_line(s, t)]);
    }
}

pub proof fn lemma_first_line_is_match(s: Seq<FolderEntry>, t: Seq<char>)
    requires
        first_line(s, t) < s.len(),
    ensures
        0 <= first_line(s, t),
        is_folder_line(s[first_line(s, t)], t),
    decreases s.len(),
{
    lemma_first_line_range(s, t);
    if s.len() > 0 && !is_folder_line(s[0], t) {
        lemma_first_line_is_match(s.drop_first(), t);
    }
}

pub proof fn lemma_adjusted_same_shape(o: Folder, n: Folder, t: Seq<char>, delta: nat)
    requires
        adjusted(o, n, t, delta),
    ensures
        n.entries@.len() == o.entries@.len(),
        forall|i: int|
            0 <= i < o.entries@.len() ==> (#[trigger] n.entries@[i]).title == o.entries@[i].title
                && n.entries@[i].kind == o.entries@[i].kind,
{
    lemma_first_line_range(o.entries@, t);
}

pub proof fn lemma_total_ge_entry(s: Seq<FolderEntry>, i: int)
    requires
        0 <= i < s.len(),
    ensures
        entry_bytes(s[i]) <= total_of(s),
{
    lemma_total_remove(s, i);
}

pub proof fn lemma_first_line(s: Seq<FolderEntry>, t: Seq<char>, i: int)
    requires
        0 <= i <= s.len(),
        forall|j: int| 0 <= j < i ==> !is_folder_line(#[trigger] s[j], t),
        i == s.len() || is_folder_line(s[i], t),
    ensures
        first_line(s, t) == i,
    decreases i,
{
    if i > 0 {
        assert(!is_folder_line(s[0], t));
        assert forall|j: int| 0 <= j < i - 1 implies !is_folder_line(#[trigger] s.drop_first()[j], t) by {
            assert(s.drop_first()[j] == s[j + 1]);
        }
        lemma_first_line(s.drop_first(), t, i - 1);
    }
}

pub proof fn lemma_total_update(s: Seq<FolderEntry>, i: int, e: FolderEntry)
    requires
        0 <= i < s.len(),
    ensures
        total_of(s.update(i, e)) + entry_bytes(s[i]) == total_of(s) + entry_bytes(e),
{
    assert(s.update(i, e) =~= s.remove(i).insert(i, e));
    lemma_total_remove(s, i);
    lemma_total_insert(s.remove(i), i, e);
}

/// Lowers the size of the first folder line titled `t` by `delta`, stopping at zero.
pub fn adjust_line(f: &mut Folder, t: &String, delta: u64)
    ensures
        adjusted(*old(f), *final(f), t@, delta as nat),
        total_of(final(f).entries@) <= total_of(old(f).entries@),
        final(f).entries@.len() == old(f).entries@.len(),
        has_parent_line(old(f).entries@) ==> has_parent_line(final(f).entries@),
{
    let mut i: usize = 0;
    while i < f.entries.len() && !(f.entries[i].kind == FolderEntryType::Folder
        && f.entries[i].title == *t)
        invariant
            i <= f.entries@.len(),
            forall|j: int| 0 <= j < i ==> !is_folder_line(#[trigger] f.entries@[j], t@),
        decreases f.entries.len() - i,
    {
        i = i + 1;
    }
    proof {
        lemma_first_line(f.entries@, t@, i as int);
    }
    if i < f.entries.len() {
        let ghost prev = f.entries@;
        let e = f.entries[i].duplicate();
        let size = match e.size {
            Some(n) => Some(
                if n >= delta {
                    n - delta
                } else {
                    0
                },
            ),
            None => None,
        };
        f.entries.set(i, FolderEntry { title: e.title, kind: e.kind, size });
        proof {
            lemma_total_update(prev, i as int, reduced(prev[i as int], delta as nat));
            if has_parent_line(prev) {
                let j = choose|j: int| 0 <= j < prev.len() && (#[trigger] prev[j]).kind == FolderEntryType::Parent;
                assert(f.entries@[j].kind == FolderEntryType::Parent);
            }
        }
    }
}

/// In either order a parent line comes first: ordered lines that include a
/// parent line start with one.
pub proof fn law_sorted_parent_first(by: SortBy, s: Seq<FolderEntry>)
    requires
        sorted_by(by, s),
        has_parent_line(s),
    ensures
        s[0].kind == FolderEntryType::Parent,
{
    let j = choose|j: int| 0 <= j < s.len() && (#[trigger] s[j]).kind == FolderEntryType::Parent;
    if s[0].kind != FolderEntryType::Parent {
        assert(j > 0);
        assert(!before(by, s[j], s[0]));
    }
}

impl Folder {
    /// An empty folder: only the parent line, with the cursor on it.
    pub fn new(title: String) -> (r: Folder)
        ensures
            r.title == title,
            r.cursor_index == 0,
            r.entries@.len() == 1,
            r.entries@[0].kind == FolderEntryType::Parent,
            r.entries@[0].title@ == TEXT_PARENT_DIR@,
            r.entries@[0].size is None,
    {
        let parent = FolderEntry {
            kind: FolderEntryType::Parent,
            title: String::from_str(TEXT_PARENT_DIR),
            size: None,
        };
        Folder { title, cursor_index: 0, entries: vec![parent] }
    }

    /// Sum of the sizes of all lines.
    pub fn get_size(&self) -> (r: u64)
        requires
            total_of(self.entries@) <= u64::MAX,
        ensures
            r == total_of(self.entries@),
    {
        let mut sum: u64 = 0;
        let mut i: usize = 0;
        while i < self.entries.len()
            invariant
                i <= self.entries@.len(),
                sum == total_of(self.entries@.subrange(0, i as int)),
                total_of(self.entries@) <= u64::MAX,
            decreases self.entries.len() - i,
        {
            proof {
                let s = self.entries@;
                assert(s.subrange(0, i + 1).drop_last() =~= s.subrange(0, i as int));
                lemma_total_prefix(s, i + 1);
            }
            sum = sum + self.entries[i].bytes();
            i = i + 1;
        }
        assert(self.entries@.subrange(0, i as int) =~= self.entries@);
        sum
    }

    /// The line the cursor is on.
    pub fn get_selected_entry(&self) -> (r: Result<&FolderEntry, EngineError>)
        ensures
            match selected_of(*self) {
                Some(e) => r == Ok::<&FolderEntry, EngineError>(&e),
                None => r == Err::<&FolderEntry, EngineError>(EngineError::CursorOutOfBounds),
            },
    {
        if self.cursor_index < self.entries.len() {
            Ok(&self.entries[self.cursor_index])
        } else {
            Err(EngineError::CursorOutOfBounds)
        }
    }

    /// Size of the line the cursor is on, zero when unknown.
    pub fn get_selected_entry_size(&self) -> (r: Result<u64, EngineError>)
        ensures
            match selected_of(*self) {
                Some(e) => r == Ok::<u64, EngineError>(entry_bytes(e) as u64),
                None => r == Err::<u64, EngineError>(EngineError::CursorOutOfBounds),
            },
    {
        match self.get_selected_entry() {
            Ok(e) => Ok(e.bytes()),
            Err(err) => Err(err),
        }
    }

    /// Takes out the line the cursor is on and keeps the cursor on the last line at most.
    pub fn remove_selected(&mut self)
        ensures
            final(self).title == old(self).title,
            old(self).cursor_index < old(self).entries@.len() ==> {
                &&& final(self).entries@ == old(self).entries@.remove(
                    old(self).cursor_index as int,
                )
                &&& final(self).cursor_index == if old(self).cursor_index
                    < final(self).entries@.len() {
                    old(self).cursor_index
                } else if final(self).entries@.len() == 0 {
                    0
                } else {
                    (final(self).entries@.len() - 1) as usize
                }
            },
            old(self).cursor_index >= old(self).entries@.len() ==> *final(self) == *old(self),
            has_parent_line(old(self).entries@) && !(selected_of(*old(self)) matches Some(e) && e.kind
                == FolderEntryType::Parent) ==> has_parent_line(final(self).entries@),
    {
        let ghost prev = self.entries@;
        if self.cursor_index < self.entries.len() {
            let ghost at = self.cursor_index as int;
            self.entries.remove(self.cursor_index);
            proof {
                if has_parent_line(prev) && prev[at].kind != FolderEntryType::Parent {
                    let j = choose|j: int| 0 <= j < prev.len() && (#[trigger] prev[j]).kind == FolderEntryType::Parent;
                    if j < at {
                        assert(self.entries@[j] == prev[j]);
                    } else {
                        assert(self.entries@[j - 1] == prev[j]);
                    }
                }
            }
            if self.cursor_index >= self.entries.len() {
                if self.entries.len() == 0 {
                    self.cursor_index = 0;
                } else {
                    self.cursor_index = self.entries.len() - 1;
                }
            }
        }
    }

    /// A copy of all lines, in order.
    pub fn to_list(&self) -> (r: Vec<FolderEntry>)
        ensures
            r@ == self.entries@,
    {
        let mut r: Vec<FolderEntry> = Vec::new();
        let mut i: usize = 0;
        while i < self.entries.len()
            invariant
                i <= self.entries@.len(),
                r@ == self.entries@.subrange(0, i as int),
            decreases self.entries.len() - i,
        {
            r.push(self.entries[i].duplicate());
            i = i + 1;
        }
        assert(r@ =~= self.entries@);
        r
    }

    /// Largest known size among the lines, zero when there is none.
    pub fn get_max_entry_size(&self) -> (r: u64)
        ensures
            r == max_of(self.entries@),
    {
        let mut max_entry_size: u64 = 0;
        let mut i: usize = 0;
        while i < self.entries.len()
            invariant
                i <= self.entries@.len(),
                max_entry_size == max_of(self.entries@.subrange(0, i as int)),
            decreases self.entries.len() - i,
        {
            assert(self.entries@.subrange(0, i + 1).drop_last() =~= self.entries@.subrange(
                0,
                i as int,
            ));
            let size = self.entries[i].bytes();
            if size > max_entry_size {
                max_entry_size = size;
            }
            i = i + 1;
        }
        assert(self.entries@.subrange(0, i as int) =~= self.entries@);
        max_entry_size
    }

    /// Orders the lines by `by`; the cursor keeps its index.
    pub fn sort(&mut self, by: SortBy)
        ensures
            final(self).title == old(self).title,
            final(self).cursor_index == old(self).cursor_index,
            final(self).entries@.to_multiset() == old(self).entries@.to_multiset(),
            final(self).entries@.len() == old(self).entries@.len(),
            sorted_by(by, final(self).entries@),
            total_of(final(self).entries@) == total_of(old(self).entries@),
            has_parent_line(old(self).entries@) ==> has_parent_line(final(self).entries@),
    {
        let ghost prev = self.entries@;
        self.entries = sort_entries(&self.entries, by);
        proof {
            if has_parent_line(prev) {
                lemma_parent_kept(prev, self.entries@);
            }
        }
    }

    /// Orders the lines by kind, then title.
    pub fn sort_by_title(&mut self)
        ensures
            final(self).title == old(self).title,
            final(self).cursor_index == old(self).cursor_index,
            final(self).entries@.to_multiset() == old(self).entries@.to_multiset(),
            final(self).entries@.len() == old(self).entries@.len(),
            sorted_by(SortBy::Title, final(self).entries@),
            total_of(final(self).entries@) == total_of(old(self).entries@),
            has_parent_line(old(self).entries@) ==> has_parent_line(final(self).entries@),
    {
        self.sort(SortBy::Title);
    }

    /// Orders the lines with the parent line first, then by size, largest first.
    pub fn sort_by_size(&mut self)
        ensures
            final(self).title == old(self).title,
            final(self).cursor_index == old(self).cursor_index,
            final(self).entries@.to_multiset() == old(self).entries@.to_multiset(),
            final(self).entries@.len() == old(self).entries@.len(),
            sorted_by(SortBy::Size, final(self).entries@),
            total_of(final(self).entries@) == total_of(old(self).entries@),
            has_parent_line(old(self).entries@) ==> has_parent_line(final(self).entries@),
    {
        self.sort(SortBy::Size);
    }
}

} // verus!
