use vstd::prelude::*;
use vstd::string::StringSliceAdditionalSpecFns;

use crate::store::{Entry, Oid, Store};

verus! {

/// The byte `/`, which separates path components.
pub const SLASH: u8 = 47;

/// The byte `.`.
pub const DOT: u8 = 46;

/// A path into a tree, component by component; the empty path keeps everything.
pub struct PathView {
    pub path: Vec<Vec<u8>>,
}

/// Why a view cannot be used.
#[derive(PartialEq, Eq, Structural, Debug, Clone, Copy)]
pub enum ViewError {
    /// The view text names a parent directory (`..`).
    InvalidView,
}

/// What a view picks out of a tree.
#[derive(PartialEq, Eq, Structural, Debug, Clone, Copy)]
pub enum Sel {
    /// Some component of the path is absent.
    Missing,
    /// The subtree found at the path.
    Dir(Oid),
    /// Some component of the path names a blob.
    NotDir,
}

pub open spec fn path_of(v: Seq<Vec<u8>>) -> Seq<Seq<u8>> {
    v.map_values(|c: Vec<u8>| c@)
}

impl PathView {
    pub open spec fn spec_path(&self) -> Seq<Seq<u8>> {
        path_of(self.path@)
    }

    /// The view that keeps the whole tree.
    pub fn identity() -> (r: PathView)
        ensures
            r.spec_path() == Seq::<Seq<u8>>::empty(),
    {
        let r = PathView { path: Vec::new() };
        assert(r.spec_path() =~= Seq::<Seq<u8>>::empty());
        r
    }

    pub fn is_identity(&self) -> (r: bool)
        ensures
            r == (self.spec_path().len() == 0),
    {
        self.path.len() == 0
    }
}

/// Position of the first entry at or after `i` that carries `name`.
pub open spec fn find_from(es: Seq<Entry>, name: Seq<u8>, i: int) -> Option<int>
    decreases es.len() - i,
{
    if i < 0 || i >= es.len() {
        None
    } else if es[i].name@ == name {
        Some(i)
    } else {
        find_from(es, name, i + 1)
    }
}

/// Follows `path` from component `k` on, starting at tree `t`.
pub open spec fn select_from(s: &Store, t: Oid, path: Seq<Seq<u8>>, k: int) -> Sel
    decreases path.len() - k,
{
    if k < 0 || k >= path.len() {
        Sel::Dir(t)
    } else {
        match find_from(s.trees@[t as int].entries@, path[k], 0) {
            None => Sel::Missing,
            Some(i) => {
                let e = s.trees@[t as int].entries@[i];
                if e.is_tree {
                    select_from(s, e.oid, path, k + 1)
                } else {
                    Sel::NotDir
                }
            },
        }
    }
}

/// The subtree that `path` selects in tree `t`.
pub open spec fn select_spec(s: &Store, t: Oid, path: Seq<Seq<u8>>) -> Sel {
    select_from(s, t, path, 0)
}

pub fn bytes_eq(a: &Vec<u8>, b: &Vec<u8>) -> (r: bool)
    ensures
        r == (a@ == b@),
{
    if a.len() != b.len() {
        return false;
    }
    let mut i: usize = 0;
    while i < a.len()
        invariant
            a@.len() == b@.len(),
            0 <= i <= a@.len(),
            forall|k: int| 0 <= k < i ==> a@[k] == b@[k],
        decreases a@.len() - i,
    {
        if a[i] != b[i] {
            return false;
        }
        i = i + 1;
    }
    assert(a@ =~= b@);
    true
}

/// Position of the first entry of `es` named `name`.
pub fn find_entry(es: &Vec<Entry>, name: &Vec<u8>) -> (r: Option<usize>)
    ensures
        r is None <==> find_from(es@, name@, 0) is None,
        r matches Some(i) ==> i < es@.len() && find_from(es@, name@, 0) == Some(i as int),
{
    let mut i: usize = 0;
    while i < es.len()
        invariant
            0 <= i <= es@.len(),
            find_from(es@, name@, 0) == find_from(es@, name@, i as int),
        decreases es@.len() - i,
    {
        if bytes_eq(&es[i].name, name) {
            return Some(i);
        }
        i = i + 1;
    }
    None
}

/// Follows the view's path from tree `t`.
pub fn select(s: &Store, t: Oid, view: &PathView) -> (r: Sel)
    requires
        s.wf(),
        t < s.trees@.len(),
    ensures
        r == select_spec(s, t, view.spec_path()),
        r matches Sel::Dir(o) ==> o < s.trees@.len(),
{
    let ghost path = view.spec_path();
    let mut cur = t;
    let mut k: usize = 0;
    while k < view.path.len()
        invariant
            s.wf(),
            cur < s.trees@.len(),
            0 <= k <= view.path@.len(),
            path == view.spec_path(),
            path.len() == view.path@.len(),
            select_spec(s, t, path) == select_from(s, cur, path, k as int),
        decreases view.path@.len() - k,
    {
        let ntrees = s.trees.len();
        assert(cur < ntrees);
        let tree = &s.trees[cur as usize];
        assert(path[k as int] == view.path@[k as int]@);
        match find_entry(&tree.entries, &view.path[k]) {
            None => {
                return Sel::Missing;
            },
            Some(i) => {
                let e = &tree.entries[i];
                if !e.is_tree {
                    return Sel::NotDir;
                }
                assert(s.tree_ok(s.trees@[cur as int]));
                assert(s.entry_ok(s.trees@[cur as int].entries@[i as int]));
                cur = e.oid;
                k = k + 1;
            },
        }
    }
    Sel::Dir(cur)
}

pub open spec fn keep_component(c: Seq<u8>) -> bool {
    c.len() > 0 && c != seq![DOT]
}

pub open spec fn is_parent_ref(c: Seq<u8>) -> bool {
    c == seq![DOT, DOT]
}

/// Scan state: components so far, the component being read, and whether `..` was met.
pub open spec fn close_component(st: (Seq<Seq<u8>>, Seq<u8>, bool)) -> (Seq<Seq<u8>>, Seq<u8>, bool) {
    if is_parent_ref(st.1) {
        (st.0, Seq::empty(), true)
    } else if keep_component(st.1) {
        (st.0.push(st.1), Seq::empty(), st.2)
    } else {
        (st.0, Seq::empty(), st.2)
    }
}

pub open spec fn scan(s: Seq<u8>, i: nat) -> (Seq<Seq<u8>>, Seq<u8>, bool)
    decreases i,
{
    if i == 0 || i > s.len() {
        (Seq::empty(), Seq::empty(), false)
    } else {
        let st = scan(s, (i - 1) as nat);
        if s[i - 1] == SLASH {
            close_component(st)
        } else {
            (st.0, st.1.push(s[i - 1]), st.2)
        }
    }
}

/// The path that view text denotes: `/`-separated components, with empty
/// components and `.` skipped; `None` where a component is `..`.
pub open spec fn view_path(s: Seq<u8>) -> Option<Seq<Seq<u8>>> {
    let st = close_component(scan(s, s.len()));
    if st.2 {
        None
    } else {
        Some(st.0)
    }
}

fn close_exec(comps: &mut Vec<Vec<u8>>, cur: Vec<u8>, bad: bool) -> (r: bool)
    ensures
        close_component((path_of(old(comps)@), cur@, bad)) == (path_of(final(comps)@), Seq::<u8>::empty(), r),
{
    let parent = cur.len() == 2 && cur[0] == DOT && cur[1] == DOT;
    let dot = cur.len() == 1 && cur[0] == DOT;
    proof {
        assert(is_parent_ref(cur@) == parent) by {
            if parent {
                assert(cur@ =~= seq![DOT, DOT]);
            }
        }
        assert((cur@ == seq![DOT]) == dot) by {
            if dot {
                assert(cur@ =~= seq![DOT]);
            }
        }
    }
    if parent {
        true
    } else if cur.len() > 0 && !dot {
        let ghost before = path_of(comps@);
        comps.push(cur);
        assert(path_of(comps@) =~= before.push(cur@));
        bad
    } else {
        bad
    }
}

/// Reads view text such as `lib/sub`; `.` and the empty text keep everything.
pub fn parse_view(s: &str) -> (r: Result<PathView, ViewError>)
    ensures
        match view_path(s.spec_bytes()) {
            None => r == Err::<PathView, ViewError>(ViewError::InvalidView),
            Some(p) => r is Ok && r->Ok_0.spec_path() == p,
        },
{
    let b = s.as_bytes();
    let ghost sb = s.spec_bytes();
    let mut comps: Vec<Vec<u8>> = Vec::new();
    let mut cur: Vec<u8> = Vec::new();
    let mut bad = false;
    let mut i: usize = 0;
    assert(path_of(comps@) =~= Seq::<Seq<u8>>::empty());
    assert(cur@ =~= Seq::<u8>::empty());
    while i < b.len()
        invariant
            b@ == sb,
            0 <= i <= b@.len(),
            scan(sb, i as nat) == (path_of(comps@), cur@, bad),
        decreases b@.len() - i,
    {
        if b[i] == SLASH {
            bad = close_exec(&mut comps, cur, bad);
            cur = Vec::new();
        } else {
            cur.push(b[i]);
        }
        i = i + 1;
    }
    bad = close_exec(&mut comps, cur, bad);
    if bad {
        Err(ViewError::InvalidView)
    } else {
        Ok(PathView { path: comps })
    }
}

} // verus!
