use vstd::prelude::*;

verus! {

/// One child of a directory as read from disk: a file with its length, or a
/// subdirectory with the index of its own listing.
#[derive(Debug, Clone)]
pub struct DiskItem {
    pub name: String,
    pub size: u64,
    pub dir: Option<usize>,
}

/// What one directory held when it was read.
#[derive(Debug, Clone)]
pub struct DirListing {
    pub title: String,
    pub parent: Option<usize>,
    pub items: Vec<DiskItem>,
}

/// Errors of building a directory tree.
#[derive(Debug, Clone, Copy, PartialEq, Eq, Structural)]
pub enum TreeError {
    /// The directory index names no directory of the tree.
    NoSuchDir,
    /// The directory already holds a child of that name.
    DuplicateName,
}

/// A directory subtree as read from disk. Directory 0 is the root; each other
/// directory comes after its parent, so that indices grow downwards.
#[derive(Debug, Clone)]
pub struct DiskTree {
    dirs: Vec<DirListing>,
}

/// Directory `d` is one of the items of its parent.
pub open spec fn listed_by_parent(dirs: Seq<DirListing>, d: int) -> bool {
    exists|k: int|
        0 <= k < dirs[dirs[d].parent->0 as int].items@.len() && #[trigger] dirs[dirs[d].parent->0 as int].items@[k].dir
            == Some(d as usize)
}

/// The tree's shape: every directory but the root has an earlier parent that
/// lists it, under its title, and names within a directory differ.
pub open spec fn tree_wf(dirs: Seq<DirListing>) -> bool {
    &&& dirs.len() >= 1
    &&& dirs[0].parent is None
    &&& forall|d: int|
        0 < d < dirs.len() ==> (#[trigger] dirs[d].parent matches Some(p) && p < d)
    &&& forall|d: int, k: int|
        0 <= d < dirs.len() && 0 <= k < dirs[d].items@.len() ==> (
        #[trigger] dirs[d].items@[k].dir matches Some(c) ==> d < c < dirs.len() && dirs[c as int].parent
            == Some(d as usize) && dirs[c as int].title@ == dirs[d].items@[k].name@)
    &&& forall|d: int| 0 < d < dirs.len() ==> #[trigger] listed_by_parent(dirs, d)
    &&& forall|d: int, k1: int, k2: int|
        0 <= d < dirs.len() && 0 <= k1 < dirs[d].items@.len() && 0 <= k2 < dirs[d].items@.len()
            && k1 != k2 ==> #[trigger] dirs[d].items@[k1].name@ != #[trigger] dirs[d].items@[k2].name@
}

/// Bytes held by the items of directory `d` from position `k` on, subdirectories
/// counted with everything beneath them.
pub open spec fn size_from(dirs: Seq<DirListing>, d: int, k: int) -> nat
    decreases dirs.len() - d, dirs[d].items@.len() - k,
{
    if d < 0 || d >= dirs.len() || k < 0 || k >= dirs[d].items@.len() {
        0
    } else {
        item_bytes(dirs, d, k) + size_from(dirs, d, k + 1)
    }
}

/// Bytes that item `k` of directory `d` stands for.
pub open spec fn item_bytes(dirs: Seq<DirListing>, d: int, k: int) -> nat
    decreases dirs.len() - d, dirs[d].items@.len() - k, 0int,
{
    if d < 0 || d >= dirs.len() || k < 0 || k >= dirs[d].items@.len() {
        0
    } else {
        match dirs[d].items@[k].dir {
            Some(c) => if d < c < dirs.len() {
                size_from(dirs, c as int, 0)
            } else {
                0
            },
            None => dirs[d].items@[k].size as nat,
        }
    }
}

/// Sum of the sizes of all regular files beneath directory `d`.
pub open spec fn tree_size(dirs: Seq<DirListing>, d: int) -> nat {
    size_from(dirs, d, 0)
}

/// The directory `k` levels above `d`, if there is one.
pub open spec fn ancestor(dirs: Seq<DirListing>, d: int, k: nat) -> Option<int>
    decreases k,
{
    if k == 0 {
        if 0 <= d < dirs.len() {
            Some(d)
        } else {
            None
        }
    } else {
        match ancestor(dirs, d, (k - 1) as nat) {
            Some(a) => match dirs[a].parent {
                Some(p) => Some(p as int),
                None => None,
            },
            None => None,
        }
    }
}

/// Whether directory `x` is `c` or lies beneath it.
pub open spec fn within(dirs: Seq<DirListing>, x: int, c: int) -> bool
    decreases x,
{
    if x == c {
        true
    } else if x < c || x >= dirs.len() {
        false
    } else {
        match dirs[x].parent {
            Some(p) => if p < x {
                within(dirs, p as int, c)
            } else {
                false
            },
            None => false,
        }
    }
}

/// Going up, each ancestor is a smaller index than the ones below it.
pub proof fn lemma_ancestor_decreasing(dirs: Seq<DirListing>, d: int, j: nat, k: nat)
    requires
        tree_wf(dirs),
        j < k,
        ancestor(dirs, d, k) is Some,
    ensures
        ancestor(dirs, d, j) is Some,
        ancestor(dirs, d, k)->0 < ancestor(dirs, d, j)->0,
    decreases k,
{
    let a = ancestor(dirs, d, (k - 1) as nat);
    assert(a is Some);
    lemma_ancestor_in_range(dirs, d, (k - 1) as nat);
    if j < k - 1 {
        lemma_ancestor_decreasing(dirs, d, j, (k - 1) as nat);
    }
}

pub proof fn lemma_ancestor_in_range(dirs: Seq<DirListing>, d: int, k: nat)
    requires
        tree_wf(dirs),
        ancestor(dirs, d, k) is Some,
    ensures
        0 <= ancestor(dirs, d, k)->0 < dirs.len(),
    decreases k,
{
    if k > 0 {
        lemma_ancestor_in_range(dirs, d, (k - 1) as nat);
        let a = ancestor(dirs, d, (k - 1) as nat)->0;
        if a > 0 {
            assert(dirs[a].parent is Some);
        }
    }
}

impl View for DiskTree {
    type V = Seq<DirListing>;

    closed spec fn view(&self) -> Seq<DirListing> {
        self.dirs@
    }
}

impl DiskTree {
    pub open spec fn wf(&self) -> bool {
        tree_wf(self@)
    }

    /// A tree of one empty directory.
    pub fn new(root_title: String) -> (r: DiskTree)
        ensures
            r.wf(),
            r@.len() == 1,
            r@[0].title == root_title,
            r@[0].items@.len() == 0,
    {
        let root = DirListing { title: root_title, parent: None, items: Vec::new() };
        DiskTree { dirs: vec![root] }
    }

    /// Number of directories.
    pub fn len(&self) -> (r: usize)
        ensures
            r == self@.len(),
    {
        self.dirs.len()
    }

    /// The listing of directory `d`.
    pub fn listing(&self, d: usize) -> (r: &DirListing)
        requires
            d < self@.len(),
        ensures
            *r == self@[d as int],
    {
        &self.dirs[d]
    }

    /// The parent of directory `d`, none for the root.
    pub fn parent_of(&self, d: usize) -> (r: Option<usize>)
        requires
            d < self@.len(),
        ensures
            r == self@[d as int].parent,
    {
        self.dirs[d].parent
    }

    /// The subdirectory of `d` called `name`, if there is one.
    pub fn child_named(&self, d: usize, name: &String) -> (r: Option<usize>)
        requires
            d < self@.len(),
        ensures
            r matches Some(c) ==> exists|k: int|
                0 <= k < self@[d as int].items@.len() && #[trigger] self@[d as int].items@[k].dir
                    == Some(c) && self@[d as int].items@[k].name@ == name@,
            r is None ==> forall|k: int|
                0 <= k < self@[d as int].items@.len() && #[trigger] self@[d as int].items@[k].dir
                    is Some ==> self@[d as int].items@[k].name@ != name@,
    {
        let items = &self.dirs[d].items;
        let mut k: usize = 0;
        while k < items.len()
            invariant
                k <= items@.len(),
                items == self@[d as int].items,
                forall|j: int|
                    0 <= j < k && #[trigger] items@[j].dir is Some ==> items@[j].name@ != name@,
            decreases items.len() - k,
        {
            if items[k].dir.is_some() && items[k].name == *name {
                return items[k].dir;
            }
            k = k + 1;
        }
        None
    }

    /// Whether directory `x` is `c` or lies beneath it.
    pub fn is_within(&self, x: usize, c: usize) -> (r: bool)
        requires
            self.wf(),
            x < self@.len(),
        ensures
            r == within(self@, x as int, c as int),
    {
        let mut y = x;
        while y > c
            invariant
                self.wf(),
                y < self@.len(),
                within(self@, x as int, c as int) == within(self@, y as int, c as int),
            decreases y,
        {
            match self.dirs[y].parent {
                Some(p) => {
                    y = p;
                },
                None => {
                    return false;
                },
            }
        }
        y == c
    }

    /// Whether directory `d` holds a child called `name`.
    pub fn has_child(&self, d: usize, name: &String) -> (r: bool)
        requires
            d < self@.len(),
        ensures
            r == exists|k: int|
                0 <= k < self@[d as int].items@.len() && #[trigger] self@[d as int].items@[k].name@
                    == name@,
    {
        let items = &self.dirs[d].items;
        let mut k: usize = 0;
        while k < items.len()
            invariant
                k <= items@.len(),
                items == self@[d as int].items,
                forall|j: int| 0 <= j < k ==> #[trigger] items@[j].name@ != name@,
            decreases items.len() - k,
        {
            if items[k].name == *name {
                return true;
            }
            k = k + 1;
        }
        false
    }

    /// Adds a file of `size` bytes to directory `d`.
    pub fn add_file(&mut self, d: usize, name: String, size: u64) -> (r: Result<(), TreeError>)
        requires
            old(self).wf(),
        ensures
            final(self).wf(),
            d >= old(self)@.len() ==> r == Err::<(), TreeError>(TreeError::NoSuchDir)
                && final(self)@ == old(self)@,
            d < old(self)@.len() && (exists|k: int|
                0 <= k < old(self)@[d as int].items@.len()
                    && #[trigger] old(self)@[d as int].items@[k].name@ == name@) ==> r == Err::<
                (),
                TreeError,
            >(TreeError::DuplicateName) && final(self)@ == old(self)@,
            r is Ok <==> d < old(self)@.len() && !(exists|k: int|
                0 <= k < old(self)@[d as int].items@.len()
                    && #[trigger] old(self)@[d as int].items@[k].name@ == name@),
            r is Ok ==> {
                &&& final(self)@.len() == old(self)@.len()
                &&& forall|x: int| 0 <= x < old(self)@.len() && x != d ==> #[trigger] final(self)@[x] == old(self)@[x]
                &&& final(self)@[d as int].title == old(self)@[d as int].title
                &&& final(self)@[d as int].parent == old(self)@[d as int].parent
                &&& final(self)@[d as int].items@ == old(self)@[d as int].items@.push(
                    DiskItem { name: name, size: size, dir: None },
                )
            },
    {
        if d >= self.dirs.len() {
            return Err(TreeError::NoSuchDir);
        }
        if self.has_child(d, &name) {
            return Err(TreeError::DuplicateName);
        }
        let ghost prev = self.dirs@;
        self.dirs[d].items.push(DiskItem { name, size, dir: None });
        proof {
            assert forall|x: int| 0 < x < self.dirs@.len() implies #[trigger] listed_by_parent(self.dirs@, x) by {
                assert(listed_by_parent(prev, x));
                let p = prev[x].parent->0 as int;
                let k = choose|k: int| 0 <= k < prev[p].items@.len() && #[trigger] prev[p].items@[k].dir == Some(x as usize);
                assert(self.dirs@[p].items@[k] == prev[p].items@[k]);
            }
        }
        Ok(())
    }

    /// Adds an empty subdirectory to directory `d` and returns its index.
    pub fn add_dir(&mut self, d: usize, name: String) -> (r: Result<usize, TreeError>)
        requires
            old(self).wf(),
            old(self)@.len() < usize::MAX,
        ensures
            final(self).wf(),
            d >= old(self)@.len() ==> r == Err::<usize, TreeError>(TreeError::NoSuchDir)
                && final(self)@ == old(self)@,
            d < old(self)@.len() && (exists|k: int|
                0 <= k < old(self)@[d as int].items@.len()
                    && #[trigger] old(self)@[d as int].items@[k].name@ == name@) ==> r == Err::<
                usize,
                TreeError,
            >(TreeError::DuplicateName) && final(self)@ == old(self)@,
            r is Ok <==> d < old(self)@.len() && !(exists|k: int|
                0 <= k < old(self)@[d as int].items@.len()
                    && #[trigger] old(self)@[d as int].items@[k].name@ == name@),
            r is Ok ==> {
                let c = old(self)@.len() as int;
                &&& r == Ok::<usize, TreeError>(c as usize)
                &&& final(self)@.len() == c + 1
                &&& forall|x: int| 0 <= x < c && x != d ==> #[trigger] final(self)@[x] == old(self)@[x]
                &&& final(self)@[d as int].title == old(self)@[d as int].title
                &&& final(self)@[d as int].parent == old(self)@[d as int].parent
                &&& final(self)@[d as int].items@ == old(self)@[d as int].items@.push(
                    DiskItem { name: name, size: 0, dir: Some(c as usize) },
                )
                &&& final(self)@[c].title == name
                &&& final(self)@[c].parent == Some(d)
                &&& final(self)@[c].items@.len() == 0
            },
    {
        if d >= self.dirs.len() {
            return Err(TreeError::NoSuchDir);
        }
        if self.has_child(d, &name) {
            return Err(TreeError::DuplicateName);
        }
        let c = self.dirs.len();
        let title = name.clone();
        let ghost prev = self.dirs@;
        self.dirs[d].items.push(DiskItem { name, size: 0, dir: Some(c) });
        self.dirs.push(DirListing { title, parent: Some(d), items: Vec::new() });
        proof {
            assert forall|x: int| 0 < x < self.dirs@.len() implies #[trigger] listed_by_parent(self.dirs@, x) by {
                if x == c {
                    let k = prev[d as int].items@.len() as int;
                    assert(self.dirs@[d as int].items@[k].dir == Some(c));
                } else {
                    assert(listed_by_parent(prev, x));
                    let p = prev[x].parent->0 as int;
                    let k = choose|k: int| 0 <= k < prev[p].items@.len() && #[trigger] prev[p].items@[k].dir == Some(x as usize);
                    assert(self.dirs@[p].items@[k] == prev[p].items@[k]);
                }
            }
        }
        Ok(c)
    }
}

} // verus!
