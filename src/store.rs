use vstd::prelude::*;

verus! {

/// Identifier of an object in the store: its position in the arena of its kind.
pub type Oid = u64;

/// One named entry of a tree: a nested tree or a blob.
pub struct Entry {
    pub name: Vec<u8>,
    pub is_tree: bool,
    pub oid: Oid,
}

/// A directory listing. Entry names are looked up front to back.
pub struct Tree {
    pub entries: Vec<Entry>,
}

/// A commit: a root tree, its parents in order, and the attribution it carries.
pub struct Commit {
    pub tree: Oid,
    pub parents: Vec<Oid>,
    pub author: Vec<u8>,
    pub message: Vec<u8>,
}

/// Append-only arena of immutable objects, one per kind, addressed by position.
pub struct Store {
    pub blobs: Vec<Vec<u8>>,
    pub trees: Vec<Tree>,
    pub commits: Vec<Commit>,
}

impl Store {
    pub open spec fn entry_ok(&self, e: Entry) -> bool {
        if e.is_tree {
            e.oid < self.trees@.len()
        } else {
            e.oid < self.blobs@.len()
        }
    }

    pub open spec fn tree_ok(&self, t: Tree) -> bool {
        forall|i: int| 0 <= i < t.entries@.len() ==> #[trigger] self.entry_ok(t.entries@[i])
    }

    /// The tree and parents of a commit at position `c` exist; parents come earlier.
    pub open spec fn commit_ok(&self, c: Commit, at: int) -> bool {
        &&& c.tree < self.trees@.len()
        &&& forall|j: int| 0 <= j < c.parents@.len() ==> #[trigger] c.parents@[j] < at
    }

    /// Every reference held by an object names an object of the store.
    pub open spec fn wf(&self) -> bool {
        &&& self.trees@.len() < u64::MAX
        &&& self.blobs@.len() < u64::MAX
        &&& self.commits@.len() < u64::MAX
        &&& forall|t: int| 0 <= t < self.trees@.len() ==> #[trigger] self.tree_ok(self.trees@[t])
        &&& forall|c: int|
            0 <= c < self.commits@.len() ==> #[trigger] self.commit_ok(self.commits@[c], c)
    }

    /// `self` holds every object of `prev`, unchanged and at the same oid.
    pub open spec fn extends(&self, prev: &Store) -> bool {
        &&& prev.blobs@.len() <= self.blobs@.len()
        &&& prev.trees@.len() <= self.trees@.len()
        &&& prev.commits@.len() <= self.commits@.len()
        &&& forall|i: int| 0 <= i < prev.blobs@.len() ==> #[trigger] self.blobs@[i] == prev.blobs@[i]
        &&& forall|i: int| 0 <= i < prev.trees@.len() ==> #[trigger] self.trees@[i] == prev.trees@[i]
        &&& forall|i: int|
            0 <= i < prev.commits@.len() ==> #[trigger] self.commits@[i] == prev.commits@[i]
    }

    pub proof fn lemma_extends_trans(a: &Store, b: &Store, c: &Store)
        requires
            b.extends(a),
            c.extends(b),
        ensures
            c.extends(a),
    {
        assert forall|i: int| 0 <= i < a.blobs@.len() implies #[trigger] c.blobs@[i] == a.blobs@[i] by {
            assert(b.blobs@[i] == a.blobs@[i]);
        }
        assert forall|i: int| 0 <= i < a.trees@.len() implies #[trigger] c.trees@[i] == a.trees@[i] by {
            assert(b.trees@[i] == a.trees@[i]);
        }
        assert forall|i: int| 0 <= i < a.commits@.len() implies #[trigger] c.commits@[i]
            == a.commits@[i] by {
            assert(b.commits@[i] == a.commits@[i]);
        }
    }

    pub open spec fn same_objects(&self, prev: &Store) -> bool {
        &&& self.extends(prev)
        &&& self.blobs@.len() == prev.blobs@.len()
        &&& self.trees@.len() == prev.trees@.len()
        &&& self.commits@.len() == prev.commits@.len()
    }

    pub fn new() -> (r: Store)
        ensures
            r.wf(),
            r.blobs@.len() == 0,
            r.trees@.len() == 0,
            r.commits@.len() == 0,
    {
        Store { blobs: Vec::new(), trees: Vec::new(), commits: Vec::new() }
    }

    /// Stores a blob; `None` when the arena is full.
    pub fn add_blob(&mut self, data: Vec<u8>) -> (r: Option<Oid>)
        requires
            old(self).wf(),
        ensures
            final(self).wf(),
            final(self).extends(old(self)),
            match r {
                Some(o) => {
                    &&& o == old(self).blobs@.len()
                    &&& final(self).blobs@ == old(self).blobs@.push(data)
                    &&& final(self).trees@ == old(self).trees@
                    &&& final(self).commits@ == old(self).commits@
                },
                None => final(self).same_objects(old(self)) && old(self).blobs@.len() + 1
                    == u64::MAX,
            },
    {
        if self.blobs.len() as u64 + 1 == u64::MAX {
            return None;
        }
        let o = self.blobs.len() as u64;
        let ghost prev = *self;
        self.blobs.push(data);
        assert forall|k: int| 0 <= k < self.trees@.len() implies #[trigger] self.tree_ok(
            self.trees@[k],
        ) by {
            assert(prev.tree_ok(self.trees@[k]));
            assert forall|i: int| 0 <= i < self.trees@[k].entries@.len() implies #[trigger] self.entry_ok(
                self.trees@[k].entries@[i],
            ) by {
                assert(prev.entry_ok(self.trees@[k].entries@[i]));
            }
        }
        assert forall|c: int| 0 <= c < self.commits@.len() implies #[trigger] self.commit_ok(
            self.commits@[c],
            c,
        ) by {
            assert(prev.commit_ok(prev.commits@[c], c));
        }
        Some(o)
    }

    /// Stores a tree; `None` when an entry names no object or the arena is full.
    pub fn add_tree(&mut self, t: Tree) -> (r: Option<Oid>)
        requires
            old(self).wf(),
        ensures
            final(self).wf(),
            final(self).extends(old(self)),
            r is Some <==> old(self).tree_ok(t) && old(self).trees@.len() + 1 < u64::MAX,
            match r {
                Some(o) => {
                    &&& o == old(self).trees@.len()
                    &&& final(self).trees@ == old(self).trees@.push(t)
                    &&& final(self).blobs@ == old(self).blobs@
                    &&& final(self).commits@ == old(self).commits@
                },
                None => final(self).same_objects(old(self)),
            },
    {
        if self.trees.len() as u64 + 1 == u64::MAX {
            return None;
        }
        let mut i: usize = 0;
        while i < t.entries.len()
            invariant
                0 <= i <= t.entries@.len(),
                self.wf(),
                *self == *old(self),
                self.trees@.len() + 1 < u64::MAX,
                forall|k: int| 0 <= k < i ==> #[trigger] self.entry_ok(t.entries@[k]),
            decreases t.entries@.len() - i,
        {
            let e = &t.entries[i];
            let ok = if e.is_tree {
                e.oid < self.trees.len() as u64
            } else {
                e.oid < self.blobs.len() as u64
            };
            if !ok {
                assert(!self.entry_ok(t.entries@[i as int]));
                return None;
            }
            i = i + 1;
        }
        let o = self.trees.len() as u64;
        self.push_tree(t);
        Some(o)
    }

    pub(crate) fn push_tree(&mut self, t: Tree)
        requires
            old(self).wf(),
            old(self).tree_ok(t),
            old(self).trees@.len() + 1 < u64::MAX,
        ensures
            final(self).wf(),
            final(self).extends(old(self)),
            final(self).trees@ == old(self).trees@.push(t),
            final(self).blobs@ == old(self).blobs@,
            final(self).commits@ == old(self).commits@,
    {
        let ghost prev = *self;
        self.trees.push(t);
        assert forall|k: int| 0 <= k < self.trees@.len() implies #[trigger] self.tree_ok(
            self.trees@[k],
        ) by {
            assert(prev.tree_ok(self.trees@[k]));
            assert forall|i: int| 0 <= i < self.trees@[k].entries@.len() implies #[trigger] self.entry_ok(
                self.trees@[k].entries@[i],
            ) by {
                assert(prev.entry_ok(self.trees@[k].entries@[i]));
            }
        }
        assert forall|c: int| 0 <= c < self.commits@.len() implies #[trigger] self.commit_ok(
            self.commits@[c],
            c,
        ) by {
            assert(prev.commit_ok(prev.commits@[c], c));
        }
    }

    /// Stores a commit; `None` when its tree or a parent names no commit
    /// stored before it, or the arena is full.
    pub fn add_commit(&mut self, c: Commit) -> (r: Option<Oid>)
        requires
            old(self).wf(),
        ensures
            final(self).wf(),
            final(self).extends(old(self)),
            r is Some <==> old(self).commit_ok(c, old(self).commits@.len() as int)
                && old(self).commits@.len() + 1 < u64::MAX,
            match r {
                Some(o) => {
                    &&& o == old(self).commits@.len()
                    &&& final(self).commits@ == old(self).commits@.push(c)
                    &&& final(self).blobs@ == old(self).blobs@
                    &&& final(self).trees@ == old(self).trees@
                },
                None => final(self).same_objects(old(self)),
            },
    {
        if self.commits.len() as u64 + 1 == u64::MAX {
            return None;
        }
        if c.tree >= self.trees.len() as u64 {
            return None;
        }
        let n = self.commits.len() as u64;
        let mut j: usize = 0;
        while j < c.parents.len()
            invariant
                0 <= j <= c.parents@.len(),
                n == self.commits@.len(),
                self.wf(),
                *self == *old(self),
                c.tree < self.trees@.len(),
                n + 1 < u64::MAX,
                forall|k: int| 0 <= k < j ==> #[trigger] c.parents@[k] < n,
            decreases c.parents@.len() - j,
        {
            if c.parents[j] >= n {
                assert(!(c.parents@[j as int] < n));
                return None;
            }
            j = j + 1;
        }
        self.push_commit(c);
        Some(n)
    }

    pub(crate) fn push_commit(&mut self, c: Commit)
        requires
            old(self).wf(),
            old(self).commit_ok(c, old(self).commits@.len() as int),
            old(self).commits@.len() + 1 < u64::MAX,
        ensures
            final(self).wf(),
            final(self).extends(old(self)),
            final(self).commits@ == old(self).commits@.push(c),
            final(self).blobs@ == old(self).blobs@,
            final(self).trees@ == old(self).trees@,
    {
        let ghost prev = *self;
        self.commits.push(c);
        assert forall|k: int| 0 <= k < self.commits@.len() implies #[trigger] self.commit_ok(
            self.commits@[k],
            k,
        ) by {
            if k < prev.commits@.len() {
                assert(prev.commit_ok(prev.commits@[k], k));
            }
        }
        assert forall|k: int| 0 <= k < self.trees@.len() implies #[trigger] self.tree_ok(
            self.trees@[k],
        ) by {
            assert(prev.tree_ok(self.trees@[k]));
            assert forall|i: int| 0 <= i < self.trees@[k].entries@.len() implies #[trigger] self.entry_ok(
                self.trees@[k].entries@[i],
            ) by {
                assert(prev.entry_ok(self.trees@[k].entries@[i]));
            }
        }
    }
}

} // verus!
