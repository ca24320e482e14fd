use vstd::prelude::*;

use crate::text::chars_of;

verus! {

/// The kind of one line of a directory listing.
#[derive(Debug, Clone, Copy, PartialEq, Eq, Structural)]
pub enum FolderEntryType {
    /// The synthetic "go up" line.
    Parent,
    File,
    Folder,
}

/// One child of a folder: its name, kind and, when known, its size in bytes.
#[derive(Debug, Clone, PartialEq, Eq)]
pub struct FolderEntry {
    pub title: String,
    pub size: Option<u64>,
    pub kind: FolderEntryType,
}

/// Position of a kind in the title order: the parent line, then folders, then files.
pub open spec fn kind_rank(k: FolderEntryType) -> int {
    match k {
        FolderEntryType::Parent => 0,
        FolderEntryType::Folder => 1,
        FolderEntryType::File => 2,
    }
}

/// Strict lexicographic order on character sequences, by code point.
pub open spec fn lex_lt(a: Seq<char>, b: Seq<char>) -> bool
    decreases a.len(),
{
    if a.len() == 0 {
        b.len() > 0
    } else if b.len() == 0 {
        false
    } else if a[0] != b[0] {
        a[0] < b[0]
    } else {
        lex_lt(a.drop_first(), b.drop_first())
    }
}

/// The title order: by kind rank, then by title.
pub open spec fn title_before(x: FolderEntry, y: FolderEntry) -> bool {
    kind_rank(x.kind) < kind_rank(y.kind) || (kind_rank(x.kind) == kind_rank(y.kind) && lex_lt(
        x.title@,
        y.title@,
    ))
}

/// The size a line counts for: its size, or zero when unknown.
pub open spec fn entry_bytes(e: FolderEntry) -> nat {
    match e.size {
        Some(n) => n as nat,
        None => 0,
    }
}

/// The size order: the parent line first, then larger sizes before smaller ones.
pub open spec fn size_before(x: FolderEntry, y: FolderEntry) -> bool {
    if x.kind == FolderEntryType::Parent {
        y.kind != FolderEntryType::Parent
    } else if y.kind == FolderEntryType::Parent {
        false
    } else {
        entry_bytes(x) > entry_bytes(y)
    }
}

pub proof fn lemma_lex_irreflexive(a: Seq<char>)
    ensures
        !lex_lt(a, a),
    decreases a.len(),
{
    if a.len() > 0 {
        lemma_lex_irreflexive(a.drop_first());
    }
}

pub proof fn lemma_lex_asymmetric(a: Seq<char>, b: Seq<char>)
    ensures
        !(lex_lt(a, b) && lex_lt(b, a)),
    decreases a.len(),
{
    if a.len() > 0 && b.len() > 0 && a[0] == b[0] {
        lemma_lex_asymmetric(a.drop_first(), b.drop_first());
    }
}

pub proof fn lemma_lex_transitive(a: Seq<char>, b: Seq<char>, c: Seq<char>)
    requires
        lex_lt(a, b),
        lex_lt(b, c),
    ensures
        lex_lt(a, c),
    decreases a.len(),
{
    if a.len() > 0 && b.len() > 0 && c.len() > 0 && a[0] == b[0] && b[0] == c[0] {
        lemma_lex_transitive(a.drop_first(), b.drop_first(), c.drop_first());
    }
}

pub proof fn lemma_lex_total(a: Seq<char>, b: Seq<char>)
    requires
        a != b,
    ensures
        lex_lt(a, b) || lex_lt(b, a),
    decreases a.len(),
{
    if a.len() > 0 && b.len() > 0 && a[0] == b[0] {
        if a.drop_first() == b.drop_first() {
            assert(a =~= seq![a[0]] + a.drop_first());
            assert(b =~= seq![b[0]] + b.drop_first());
        }
        lemma_lex_total(a.drop_first(), b.drop_first());
    } else if a.len() > 0 && b.len() > 0 && a[0] != b[0] {
    } else if a.len() == 0 && b.len() == 0 {
        assert(a =~= b);
    }
}

/// Whether `a` comes strictly before `b` in code point order.
pub fn chars_less(a: &Vec<char>, b: &Vec<char>) -> (r: bool)
    ensures
        r == lex_lt(a@, b@),
{
    let mut i: usize = 0;
    assert(a@.subrange(0, a.len() as int) =~= a@);
    assert(b@.subrange(0, b.len() as int) =~= b@);
    while i < a.len() && i < b.len() && a[i] == b[i]
        invariant
            i <= a.len(),
            i <= b.len(),
            lex_lt(a@, b@) == lex_lt(a@.subrange(i as int, a.len() as int), b@.subrange(i as int, b.len() as int)),
        decreases a.len() - i,
    {
        let ghost sa = a@.subrange(i as int, a.len() as int);
        let ghost sb = b@.subrange(i as int, b.len() as int);
        assert(sa.drop_first() =~= a@.subrange(i + 1, a.len() as int));
        assert(sb.drop_first() =~= b@.subrange(i + 1, b.len() as int));
        i = i + 1;
    }
    if i == b.len() {
        false
    } else if i == a.len() {
        true
    } else {
        a[i] < b[i]
    }
}

impl FolderEntryType {
    /// Position of the kind in the title order.
    pub fn rank(&self) -> (r: u8)
        ensures
            r as int == kind_rank(*self),
    {
        match self {
            FolderEntryType::Parent => 0,
            FolderEntryType::Folder => 1,
            FolderEntryType::File => 2,
        }
    }
}

impl FolderEntry {
    /// A copy of the line.
    pub fn duplicate(&self) -> (r: FolderEntry)
        ensures
            r == *self,
    {
        FolderEntry { title: self.title.clone(), size: self.size, kind: self.kind }
    }

    /// The size the line counts for: its size, or zero when unknown.
    pub fn bytes(&self) -> (r: u64)
        ensures
            r as nat == entry_bytes(*self),
    {
        match self.size {
            Some(n) => n,
            None => 0,
        }
    }

    /// Whether `self` comes strictly before `other` by kind, then title.
    pub fn title_precedes(&self, other: &FolderEntry) -> (r: bool)
        ensures
            r == title_before(*self, *other),
    {
        let a = self.kind.rank();
        let b = other.kind.rank();
        if a != b {
            a < b
        } else {
            let x = chars_of(self.title.as_str());
            let y = chars_of(other.title.as_str());
            chars_less(&x, &y)
        }
    }

    /// Whether `self` comes strictly before `other` in the size order.
    pub fn size_precedes(&self, other: &FolderEntry) -> (r: bool)
        ensures
            r == size_before(*self, *other),
    {
        if self.kind == FolderEntryType::Parent {
            other.kind != FolderEntryType::Parent
        } else if other.kind == FolderEntryType::Parent {
            false
        } else {
            self.bytes() > other.bytes()
        }
    }
}

} // verus!
