use vstd::prelude::*;

use crate::store::{Commit, Oid, Store};
use crate::view::{select, select_from, select_spec, PathView, Sel};

verus! {

/// The filtered image of a source commit: the commit that stands for it in the
/// filtered history, and that commit's tree.
#[derive(PartialEq, Eq, Structural, Debug, Clone, Copy)]
pub struct Image {
    pub commit: Oid,
    pub tree: Oid,
}

/// Why filtering stopped.
#[derive(PartialEq, Eq, Structural, Debug, Clone, Copy)]
pub enum FilterError {
    /// The view's path runs into a blob in some commit of the history.
    InvalidView,
    /// The commit asked for is not in the store.
    CorruptHistory,
    /// The store has no room for another commit.
    StoreFull,
}

/// Cache entry per source commit: not yet filtered, filtered to nothing, or
/// filtered to an image.
pub type CacheEntry = Option<Option<Image>>;

/// Whether some image already listed has tree `t`.
pub open spec fn has_tree(acc: Seq<Image>, t: Oid) -> bool {
    exists|j: int| 0 <= j < acc.len() && #[trigger] acc[j].tree == t
}

/// The parents of a filtered commit: the images of the first `n` source
/// parents in order, leaving out parents with no image and parents whose
/// image has the same tree as one already listed.
pub open spec fn merged(cache: Seq<CacheEntry>, ps: Seq<Oid>, n: int) -> Seq<Image>
    decreases n,
{
    if n <= 0 || n > ps.len() {
        Seq::empty()
    } else {
        let acc = merged(cache, ps, n - 1);
        match cache[ps[n - 1] as int] {
            Some(Some(im)) => if has_tree(acc, im.tree) {
                acc
            } else {
                acc.push(im)
            },
            _ => acc,
        }
    }
}

pub open spec fn commits_of(ims: Seq<Image>) -> Seq<Oid> {
    ims.map_values(|im: Image| im.commit)
}

/// Every parent of commit `c` has a cache entry.
pub open spec fn parents_cached(s: &Store, cache: Seq<CacheEntry>, c: int) -> bool {
    forall|j: int|
        0 <= j < s.commits@[c].parents@.len() ==> {
            let p = #[trigger] s.commits@[c].parents@[j] as int;
            0 <= p < cache.len() && cache[p] is Some
        }
}

/// The image of source commit `c`, given the images of its parents.
pub open spec fn image_rule(
    s: &Store,
    path: Seq<Seq<u8>>,
    cache: Seq<CacheEntry>,
    c: int,
    img: Option<Image>,
) -> bool {
    let cm = s.commits@[c];
    match select_spec(s, cm.tree, path) {
        Sel::NotDir => false,
        Sel::Missing => img == (if cm.parents@.len() == 0 {
            None
        } else {
            cache[cm.parents@[0] as int]->Some_0
        }),
        Sel::Dir(t) => {
            let np = merged(cache, cm.parents@, cm.parents@.len() as int);
            if np.len() == 1 && np[0].tree == t {
                img == Some(np[0])
            } else {
                img matches Some(im) && im.tree == t && new_commit_ok(s, im.commit, t, commits_of(np), cm)
            }
        },
    }
}

/// The commit at `x` has tree `t`, parents `ps`, and the attribution of `src`.
pub open spec fn new_commit_ok(s: &Store, x: Oid, t: Oid, ps: Seq<Oid>, src: Commit) -> bool {
    &&& x < s.commits@.len()
    &&& s.commits@[x as int].tree == t
    &&& s.commits@[x as int].parents@ == ps
    &&& s.commits@[x as int].author@ == src.author@
    &&& s.commits@[x as int].message@ == src.message@
}

/// The image names a commit of the store that has the image's tree.
pub open spec fn image_ok(s: &Store, img: Option<Image>) -> bool {
    img matches Some(im) ==> im.commit < s.commits@.len() && s.commits@[im.commit as int].tree
        == im.tree
}

/// No commit that `c` descends from, nor `c`, has a blob where the view
/// expects a directory.
pub open spec fn history_ok(s: &Store, path: Seq<Seq<u8>>, c: int) -> bool
    decreases c, 1nat, 0int,
{
    &&& 0 <= c < s.commits@.len()
    &&& select_spec(s, s.commits@[c].tree, path) != Sel::NotDir
    &&& parents_ok(s, path, c, s.commits@[c].parents@.len() as int)
}

pub open spec fn parents_ok(s: &Store, path: Seq<Seq<u8>>, c: int, k: int) -> bool
    decreases c, 0nat, k,
{
    if k <= 0 {
        true
    } else {
        let p = s.commits@[c].parents@[k - 1] as int;
        &&& 0 <= p < c
        &&& history_ok(s, path, p)
        &&& parents_ok(s, path, c, k - 1)
    }
}

/// Every cache entry holds the image that the filtering rules give its commit.
pub open spec fn cache_ok(s: &Store, path: Seq<Seq<u8>>, cache: Seq<CacheEntry>) -> bool {
    &&& cache.len() <= s.commits@.len()
    &&& forall|c: int|
        0 <= c < cache.len() && #[trigger] cache[c] is Some ==> {
            &&& parents_cached(s, cache, c)
            &&& image_rule(s, path, cache, c, cache[c]->Some_0)
            &&& image_ok(s, cache[c]->Some_0)
            &&& history_ok(s, path, c)
        }
}

/// `next` keeps every entry of `prev`, and fills none above `c`.
pub open spec fn cache_grows(prev: Seq<CacheEntry>, next: Seq<CacheEntry>, c: int) -> bool {
    &&& prev.len() <= next.len()
    &&& forall|i: int| 0 <= i < prev.len() && prev[i] is Some ==> #[trigger] next[i] == prev[i]
    &&& forall|i: int|
        0 <= i < next.len() && #[trigger] next[i] is Some && i > c ==> i < prev.len() && next[i]
            == prev[i]
}

pub proof fn lemma_select_stable(s1: &Store, s2: &Store, t: Oid, path: Seq<Seq<u8>>, k: int)
    requires
        s1.wf(),
        s2.extends(s1),
        t < s1.trees@.len(),
    ensures
        select_from(s2, t, path, k) == select_from(s1, t, path, k),
    decreases path.len() - k,
{
    if 0 <= k < path.len() {
        assert(s2.trees@[t as int] == s1.trees@[t as int]);
        let es = s1.trees@[t as int].entries@;
        match crate::view::find_from(es, path[k], 0) {
            None => {},
            Some(i) => {
                lemma_find_in_range(es, path[k], 0);
                assert(s1.tree_ok(s1.trees@[t as int]));
                assert(s1.entry_ok(es[i]));
                if es[i].is_tree {
                    lemma_select_stable(s1, s2, es[i].oid, path, k + 1);
                }
            },
        }
    }
}

pub proof fn lemma_find_in_range(es: Seq<crate::store::Entry>, name: Seq<u8>, i: int)
    ensures
        crate::view::find_from(es, name, i) matches Some(j) ==> i <= j < es.len(),
    decreases es.len() - i,
{
    if 0 <= i < es.len() && es[i].name@ != name {
        lemma_find_in_range(es, name, i + 1);
    }
}

pub proof fn lemma_history_stable(s1: &Store, s2: &Store, path: Seq<Seq<u8>>, c: int)
    requires
        s1.wf(),
        s2.extends(s1),
        0 <= c < s1.commits@.len(),
    ensures
        history_ok(s2, path, c) == history_ok(s1, path, c),
    decreases c, 1nat, 0int,
{
    assert(s2.commits@[c] == s1.commits@[c]);
    assert(s1.commit_ok(s1.commits@[c], c));
    lemma_select_stable(s1, s2, s1.commits@[c].tree, path, 0);
    lemma_parents_stable(s1, s2, path, c, s1.commits@[c].parents@.len() as int);
}

pub proof fn lemma_parents_stable(s1: &Store, s2: &Store, path: Seq<Seq<u8>>, c: int, k: int)
    requires
        s1.wf(),
        s2.extends(s1),
        0 <= c < s1.commits@.len(),
        k <= s1.commits@[c].parents@.len(),
    ensures
        parents_ok(s2, path, c, k) == parents_ok(s1, path, c, k),
    decreases c, 0nat, k,
{
    assert(s2.commits@[c] == s1.commits@[c]);
    if k > 0 {
        let p = s1.commits@[c].parents@[k - 1] as int;
        assert(s1.commit_ok(s1.commits@[c], c));
        if 0 <= p < c {
            lemma_history_stable(s1, s2, path, p);
        }
        lemma_parents_stable(s1, s2, path, c, k - 1);
    }
}

pub proof fn lemma_merged_same(c1: Seq<CacheEntry>, c2: Seq<CacheEntry>, ps: Seq<Oid>, n: int)
    requires
        forall|i: int| 0 <= i < n && i < ps.len() ==> c1[#[trigger] ps[i] as int] == c2[ps[i] as int],
    ensures
        merged(c1, ps, n) == merged(c2, ps, n),
    decreases n,
{
    if 0 < n <= ps.len() {
        lemma_merged_same(c1, c2, ps, n - 1);
        assert(c1[ps[n - 1] as int] == c2[ps[n - 1] as int]);
    }
}

/// The parents listed by `merged` are images found in the cache.
pub proof fn lemma_merged_images(s: &Store, cache: Seq<CacheEntry>, ps: Seq<Oid>, n: int)
    requires
        forall|i: int|
            0 <= i < ps.len() ==> 0 <= #[trigger] ps[i] < cache.len() && image_ok(
                s,
                cache[ps[i] as int]->Some_0,
            ),
    ensures
        forall|j: int|
            0 <= j < merged(cache, ps, n).len() ==> image_ok(s, Some(#[trigger] merged(cache, ps, n)[j])),
        merged(cache, ps, n).len() <= if n < 0 { 0 } else { n },
    decreases n,
{
    if 0 < n <= ps.len() {
        lemma_merged_images(s, cache, ps, n - 1);
        assert(image_ok(s, cache[ps[n - 1] as int]->Some_0));
    }
}

pub proof fn lemma_cache_store_stable(
    s1: &Store,
    s2: &Store,
    path: Seq<Seq<u8>>,
    cache: Seq<CacheEntry>,
)
    requires
        s1.wf(),
        s2.extends(s1),
        cache_ok(s1, path, cache),
    ensures
        cache_ok(s2, path, cache),
{
    assert forall|c: int| 0 <= c < cache.len() && #[trigger] cache[c] is Some implies {
        &&& parents_cached(s2, cache, c)
        &&& image_rule(s2, path, cache, c, cache[c]->Some_0)
        &&& image_ok(s2, cache[c]->Some_0)
        &&& history_ok(s2, path, c)
    } by {
        assert(s2.commits@[c] == s1.commits@[c]);
        assert(s1.commit_ok(s1.commits@[c], c));
        lemma_select_stable(s1, s2, s1.commits@[c].tree, path, 0);
        lemma_history_stable(s1, s2, path, c);
        let img = cache[c]->Some_0;
        if let Some(im) = img {
            assert(s2.commits@[im.commit as int] == s1.commits@[im.commit as int]);
        }
        let cm = s1.commits@[c];
        if let Sel::Dir(t) = select_spec(s1, cm.tree, path) {
            let np = merged(cache, cm.parents@, cm.parents@.len() as int);
            if !(np.len() == 1 && np[0].tree == t) {
                let im = img->Some_0;
                assert(s2.commits@[im.commit as int] == s1.commits@[im.commit as int]);
            }
        }
    }
}

pub proof fn lemma_cache_push_none(s: &Store, path: Seq<Seq<u8>>, cache: Seq<CacheEntry>)
    requires
        cache_ok(s, path, cache),
        cache.len() < s.commits@.len(),
    ensures
        cache_ok(s, path, cache.push(None)),
{
    let c2 = cache.push(None);
    assert forall|c: int| 0 <= c < c2.len() && #[trigger] c2[c] is Some implies {
        &&& parents_cached(s, c2, c)
        &&& image_rule(s, path, c2, c, c2[c]->Some_0)
        &&& image_ok(s, c2[c]->Some_0)
        &&& history_ok(s, path, c)
    } by {
        assert(cache[c] is Some);
        assert(parents_cached(s, cache, c));
        let ps = s.commits@[c].parents@;
        assert forall|i: int| 0 <= i < ps.len() && i < ps.len() implies cache[#[trigger] ps[i] as int]
            == c2[ps[i] as int] by {
            assert(0 <= ps[i] < cache.len());
        }
        lemma_merged_same(cache, c2, ps, ps.len() as int);
        if ps.len() > 0 {
            assert(0 <= ps[0] < cache.len());
        }
    }
}

pub proof fn lemma_cache_set(
    s: &Store,
    path: Seq<Seq<u8>>,
    cache: Seq<CacheEntry>,
    c: int,
    img: Option<Image>,
)
    requires
        cache_ok(s, path, cache),
        0 <= c < cache.len(),
        cache[c] is None,
        parents_cached(s, cache, c),
        image_rule(s, path, cache, c, img),
        image_ok(s, img),
        history_ok(s, path, c),
    ensures
        cache_ok(s, path, cache.update(c, Some(img))),
{
    let c2 = cache.update(c, Some(img));
    assert forall|d: int| 0 <= d < c2.len() && #[trigger] c2[d] is Some implies {
        &&& parents_cached(s, c2, d)
        &&& image_rule(s, path, c2, d, c2[d]->Some_0)
        &&& image_ok(s, c2[d]->Some_0)
        &&& history_ok(s, path, d)
    } by {
        let ps = s.commits@[d].parents@;
        if d != c {
            assert(cache[d] is Some);
        }
        assert(parents_cached(s, cache, d));
        assert forall|i: int| 0 <= i < ps.len() && i < ps.len() implies cache[#[trigger] ps[i] as int]
            == c2[ps[i] as int] by {
            assert(0 <= ps[i] < cache.len() && cache[ps[i] as int] is Some);
        }
        lemma_merged_same(cache, c2, ps, ps.len() as int);
        if ps.len() > 0 {
            assert(cache[ps[0] as int] == c2[ps[0] as int]);
        }
    }
}

pub proof fn lemma_grows_trans(
    a: Seq<CacheEntry>,
    b: Seq<CacheEntry>,
    d: Seq<CacheEntry>,
    x: int,
    y: int,
)
    requires
        cache_grows(a, b, y),
        cache_grows(b, d, x),
        x <= y,
    ensures
        cache_grows(a, d, y),
{
    assert forall|i: int| 0 <= i < d.len() && #[trigger] d[i] is Some && i > y implies i < a.len()
        && d[i] == a[i] by {
        assert(d[i] == b[i]);
    }
    assert forall|i: int| 0 <= i < a.len() && a[i] is Some implies #[trigger] d[i] == a[i] by {
        assert(b[i] == a[i]);
    }
}

pub proof fn lemma_parents_ok_elim(s: &Store, path: Seq<Seq<u8>>, c: int, k: int, j: int)
    requires
        parents_ok(s, path, c, k),
        0 <= j < k,
    ensures
        history_ok(s, path, s.commits@[c].parents@[j] as int),
    decreases k,
{
    if j < k - 1 {
        lemma_parents_ok_elim(s, path, c, k - 1, j);
    }
}

pub proof fn lemma_parents_ok_intro(s: &Store, path: Seq<Seq<u8>>, c: int, k: int)
    requires
        s.wf(),
        0 <= c < s.commits@.len(),
        k <= s.commits@[c].parents@.len(),
        forall|j: int| 0 <= j < k ==> history_ok(s, path, #[trigger] s.commits@[c].parents@[j] as int),
    ensures
        parents_ok(s, path, c, k),
    decreases k,
{
    if k > 0 {
        assert(s.commit_ok(s.commits@[c], c));
        assert(s.commits@[c].parents@[k - 1] < c);
        lemma_parents_ok_intro(s, path, c, k - 1);
    }
}

/// Whether some image of `acc` has tree `t`.
fn contains_tree(acc: &Vec<Image>, t: Oid) -> (r: bool)
    ensures
        r == has_tree(acc@, t),
{
    let mut j: usize = 0;
    while j < acc.len()
        invariant
            0 <= j <= acc@.len(),
            forall|k: int| 0 <= k < j ==> acc@[k].tree != t,
        decreases acc@.len() - j,
    {
        if acc[j].tree == t {
            return true;
        }
        j = j + 1;
    }
    false
}

/// The parents that a filtered commit gets from the images of `ps`.
fn merge_parents(cache: &Vec<CacheEntry>, ps: &Vec<Oid>) -> (r: Vec<Image>)
    requires
        forall|i: int| 0 <= i < ps@.len() ==> #[trigger] ps@[i] < cache@.len(),
    ensures
        r@ == merged(cache@, ps@, ps@.len() as int),
{
    let mut acc: Vec<Image> = Vec::new();
    let mut i: usize = 0;
    assert(acc@ =~= merged(cache@, ps@, 0));
    while i < ps.len()
        invariant
            0 <= i <= ps@.len(),
            forall|k: int| 0 <= k < ps@.len() ==> #[trigger] ps@[k] < cache@.len(),
            acc@ == merged(cache@, ps@, i as int),
        decreases ps@.len() - i,
    {
        let p = ps[i];
        let ncache = cache.len();
        assert(ps@[i as int] < ncache);
        match cache[p as usize] {
            Some(Some(im)) => {
                if !contains_tree(&acc, im.tree) {
                    acc.push(im);
                }
            },
            _ => {},
        }
        i = i + 1;
    }
    acc
}

fn commit_ids(ims: &Vec<Image>) -> (r: Vec<Oid>)
    ensures
        r@ == commits_of(ims@),
{
    let mut r: Vec<Oid> = Vec::new();
    let mut i: usize = 0;
    while i < ims.len()
        invariant
            0 <= i <= ims@.len(),
            r@ == commits_of(ims@.subrange(0, i as int)),
        decreases ims@.len() - i,
    {
        r.push(ims[i].commit);
        assert(ims@.subrange(0, i + 1) =~= ims@.subrange(0, i as int).push(ims@[i as int]));
        assert(commits_of(ims@.subrange(0, i + 1)) =~= commits_of(ims@.subrange(0, i as int)).push(
            ims@[i as int].commit,
        ));
        i = i + 1;
    }
    assert(ims@.subrange(0, ims@.len() as int) =~= ims@);
    r
}

/// Filters history through one view, remembering the image of each source
/// commit once it is known.
pub struct Filter {
    pub view: PathView,
    pub cache: Vec<CacheEntry>,
}

impl Filter {
    pub open spec fn path(&self) -> Seq<Seq<u8>> {
        self.view.spec_path()
    }

    /// The cache agrees with the filtering rules on store `s`.
    pub open spec fn wf(&self, s: &Store) -> bool {
        cache_ok(s, self.path(), self.cache@)
    }

    pub fn new(view: PathView) -> (r: Filter)
        ensures
            r.view == view,
            r.cache@.len() == 0,
            forall|s: &Store| #[trigger] r.wf(s),
    {
        Filter { view, cache: Vec::new() }
    }

    /// The cached image of source commit `c`, if it was filtered before.
    pub fn cached(&self, c: Oid) -> (r: Option<Option<Image>>)
        ensures
            r == (if c < self.cache@.len() {
                self.cache@[c as int]
            } else {
                None
            }),
    {
        if c < self.cache.len() as u64 {
            self.cache[c as usize]
        } else {
            None
        }
    }

    fn image_of(&mut self, s: &mut Store, c: Oid) -> (r: Result<Option<Image>, FilterError>)
        requires
            old(s).wf(),
            old(self).wf(old(s)),
            c < old(s).commits@.len(),
        ensures
            final(s).wf(),
            final(s).extends(old(s)),
            final(self).view == old(self).view,
            final(self).wf(final(s)),
            cache_grows(old(self).cache@, final(self).cache@, c as int),
            c < old(self).cache@.len() && old(self).cache@[c as int] is Some ==> *final(s) == *old(s)
                && r is Ok,
            match r {
                Ok(img) => {
                    &&& c < final(self).cache@.len()
                    &&& final(self).cache@[c as int] == Some(img)
                    &&& history_ok(old(s), old(self).path(), c as int)
                },
                Err(FilterError::InvalidView) => !history_ok(old(s), old(self).path(), c as int),
                Err(FilterError::StoreFull) => final(s).commits@.len() + 1 >= u64::MAX,
                Err(FilterError::CorruptHistory) => false,
            },
        decreases c,
    {
        let ghost path = self.path();
        let ncommits = s.commits.len();
        let cu = c as usize;
        assert(cu as int == c as int);
        let ghost s0 = *s;
        let ghost cache0 = self.cache@;
        while self.cache.len() < s.commits.len()
            invariant
                s.wf(),
                *s == s0,
                s0 == *old(s),
                cache0 == old(self).cache@,
                path == old(self).path(),
                self.path() == path,
                self.view == old(self).view,
                self.wf(s),
                cache_grows(cache0, self.cache@, -1),
            decreases s.commits@.len() - self.cache@.len(),
        {
            proof {
                lemma_cache_push_none(s, path, self.cache@);
            }
            self.cache.push(None);
        }
        if let Some(img) = self.cache[cu] {
            return Ok(img);
        }
        let ghost cache1 = self.cache@;
        let n = s.commits[cu].parents.len();
        let mut j: usize = 0;
        while j < n
            invariant
                s0.wf(),
                s.wf(),
                s.extends(&s0),
                c < s0.commits@.len(),
                n == s0.commits@[c as int].parents@.len(),
                cu == c,
                s0 == *old(s),
                cache0 == old(self).cache@,
                path == old(self).path(),
                0 <= j <= n,
                self.path() == path,
                self.view == old(self).view,
                self.wf(s),
                cache_grows(cache0, cache1, -1),
                cache_grows(cache1, self.cache@, c - 1),
                c < cache1.len(),
                cache1[c as int] is None,
                forall|k: int|
                    0 <= k < j ==> {
                        let p = #[trigger] s0.commits@[c as int].parents@[k] as int;
                        0 <= p < self.cache@.len() && self.cache@[p] is Some
                    },
            decreases n - j,
        {
            proof {
                assert(s.commits@[c as int] == s0.commits@[c as int]);
                assert(s0.commit_ok(s0.commits@[c as int], c as int));
            }
            let p = s.commits[cu].parents[j];
            let ghost s1 = *s;
            let ghost cache2 = self.cache@;
            let res = self.image_of(s, p);
            proof {
                lemma_grows_trans(cache1, cache2, self.cache@, p as int, c - 1);
                Store::lemma_extends_trans(&s0, &s1, s);
            }
            match res {
                Err(e) => {
                    proof {
                        lemma_history_stable(&s0, &s1, path, p as int);
                        if history_ok(&s0, path, c as int) {
                            lemma_parents_ok_elim(&s0, path, c as int, n as int, j as int);
                        }
                        lemma_grows_trans(cache0, cache1, self.cache@, c - 1, c as int);
                    }
                    return Err(e);
                },
                Ok(_) => {},
            }
            proof {
                assert forall|k: int| 0 <= k < j + 1 implies {
                    let p = #[trigger] s0.commits@[c as int].parents@[k] as int;
                    0 <= p < self.cache@.len() && self.cache@[p] is Some
                } by {
                    if k < j {
                        let q = s0.commits@[c as int].parents@[k] as int;
                        assert(cache2[q] is Some);
                    }
                }
            }
            j = j + 1;
        }
        proof {
            assert(s.commits@[c as int] == s0.commits@[c as int]);
            assert(s0.commit_ok(s0.commits@[c as int], c as int));
        }
        let tree = s.commits[cu].tree;
        let sel = select(s, tree, &self.view);
        if sel == Sel::NotDir {
            proof {
                lemma_history_stable(&s0, s, path, c as int);
                lemma_grows_trans(cache0, cache1, self.cache@, c - 1, c as int);
            }
            return Err(FilterError::InvalidView);
        }
        let img: Option<Image> = match sel {
            Sel::Dir(t) => {
                let np = merge_parents(&self.cache, &s.commits[cu].parents);
                proof {
                    assert forall|i: int| 0 <= i < s.commits@[c as int].parents@.len() implies 0
                        <= #[trigger] s.commits@[c as int].parents@[i] < self.cache@.len()
                        && image_ok(s, self.cache@[s.commits@[c as int].parents@[i] as int]->Some_0) by {
                        let q = s0.commits@[c as int].parents@[i] as int;
                        assert(self.cache@[q] is Some);
                    }
                    lemma_merged_images(s, self.cache@, s.commits@[c as int].parents@, n as int);
                }
                if np.len() == 1 && np[0].tree == t {
                    proof {
                        assert(image_ok(s, Some(np@[0])));
                    }
                    Some(np[0])
                } else {
                    let parents = commit_ids(&np);
                    let author = s.commits[cu].author.clone();
                    let message = s.commits[cu].message.clone();
                    if s.commits.len() as u64 + 1 >= u64::MAX {
                        proof {
                            lemma_grows_trans(cache0, cache1, self.cache@, c - 1, c as int);
                        }
                        return Err(FilterError::StoreFull);
                    }
                    let x = s.commits.len() as u64;
                    let ghost s2 = *s;
                    proof {
                        assert forall|k: int| 0 <= k < parents@.len() implies #[trigger] parents@[k]
                            < x by {
                            assert(image_ok(s, Some(np@[k])));
                        }
                    }
                    s.push_commit(Commit { tree: t, parents, author, message });
                    proof {
                        lemma_cache_store_stable(&s2, s, path, self.cache@);
                        lemma_select_stable(&s2, s, tree, path, 0);
                        assert(s.commits@[c as int] == s2.commits@[c as int]);
                    }
                    Some(Image { commit: x, tree: t })
                }
            },
            _ => {
                if n == 0 {
                    None
                } else {
                    let p0 = s.commits[cu].parents[0];
                    proof {
                        assert(self.cache@[s0.commits@[c as int].parents@[0] as int] is Some);
                    }
                    match self.cache[p0 as usize] {
                        Some(im) => im,
                        None => None,
                    }
                }
            },
        };
        proof {
            assert(s.commits@[c as int] == s0.commits@[c as int]);
            assert forall|j: int| 0 <= j < n implies history_ok(
                s,
                path,
                #[trigger] s.commits@[c as int].parents@[j] as int,
            ) by {
                let q = s0.commits@[c as int].parents@[j] as int;
                assert(self.cache@[q] is Some);
            }
            lemma_parents_ok_intro(s, path, c as int, n as int);
            lemma_select_stable(&s0, s, tree, path, 0);
            lemma_history_stable(&s0, s, path, c as int);
            assert(self.cache@[c as int] is None);
            if n > 0 {
                let q = s0.commits@[c as int].parents@[0] as int;
                assert(self.cache@[q] is Some);
            }
            lemma_cache_set(s, path, self.cache@, c as int, img);
            lemma_grows_trans(cache0, cache1, self.cache@, c - 1, c - 1);
        }
        let ghost before = self.cache@;
        self.cache.set(cu, Some(img));
        proof {
            assert forall|i: int| 0 <= i < cache0.len() && cache0[i] is Some implies #[trigger] self.cache@[i] == cache0[i] by {
                assert(before[i] == cache0[i]);
            }
        }
        Ok(img)
    }

    /// Filters the history that ends at `tip`: `Ok(Some(o))` names the filtered
    /// tip, `Ok(None)` says that the view is empty all through that history.
    pub fn filter(&mut self, s: &mut Store, tip: Oid) -> (r: Result<Option<Oid>, FilterError>)
        requires
            old(s).wf(),
            old(self).wf(old(s)),
        ensures
            filter_post(*old(s), *old(self), *final(s), *final(self), tip, r),
    {
        if tip >= s.commits.len() as u64 {
            return Err(FilterError::CorruptHistory);
        }
        let ghost c0 = self.cache@;
        let res = self.image_of(s, tip);
        proof {
            if tip < c0.len() && c0[tip as int] is Some {
                assert(self.cache@[tip as int] == c0[tip as int]);
            }
        }
        match res {
            Ok(img) => {
                let o = match img {
                    Some(im) => Some(im.commit),
                    None => None,
                };
                Ok(o)
            },
            Err(e) => Err(e),
        }
    }
}

/// The oid that stands for a commit's image: `None` for "no commit".
pub open spec fn image_oid(img: Option<Image>) -> Option<Oid> {
    match img {
        Some(im) => Some(im.commit),
        None => None,
    }
}

/// What one call of `filter(tip)` does, from store `s0` and filter `f0` to `s1` and `f1`.
pub open spec fn filter_post(
    s0: Store,
    f0: Filter,
    s1: Store,
    f1: Filter,
    tip: Oid,
    r: Result<Option<Oid>, FilterError>,
) -> bool {
    &&& s1.wf()
    &&& s1.extends(&s0)
    &&& f1.view == f0.view
    &&& f1.wf(&s1)
    &&& cache_grows(f0.cache@, f1.cache@, tip as int)
    &&& (tip < f0.cache@.len() && (f0.cache@[tip as int] is Some)) ==> (s1 == s0 && r == Ok::<
        Option<Oid>,
        FilterError,
    >(image_oid(f0.cache@[tip as int]->Some_0)))
    &&& match r {
        Ok(o) => {
            &&& tip < s0.commits@.len()
            &&& history_ok(&s0, f0.path(), tip as int)
            &&& tip < f1.cache@.len()
            &&& f1.cache@[tip as int] is Some
            &&& o == image_oid(f1.cache@[tip as int]->Some_0)
        },
        Err(FilterError::CorruptHistory) => tip >= s0.commits@.len(),
        Err(FilterError::InvalidView) => tip < s0.commits@.len() && !history_ok(
            &s0,
            f0.path(),
            tip as int,
        ),
        Err(FilterError::StoreFull) => tip < s0.commits@.len() && s1.commits@.len() + 1
            >= u64::MAX,
    }
}

/// Filtering the same tip twice gives the same filtered oid, and the second
/// run writes no object.
pub proof fn lemma_filter_idempotent(
    s0: Store,
    f0: Filter,
    s1: Store,
    f1: Filter,
    s2: Store,
    f2: Filter,
    tip: Oid,
    r1: Result<Option<Oid>, FilterError>,
    r2: Result<Option<Oid>, FilterError>,
)
    requires
        filter_post(s0, f0, s1, f1, tip, r1),
        filter_post(s1, f1, s2, f2, tip, r2),
        r1 is Ok,
    ensures
        r2 == r1,
        s2 == s1,
{
}

/// Filtering another tip later leaves the image of every commit filtered
/// before unchanged, and every object written before in place.
pub proof fn lemma_filter_monotone(
    s0: Store,
    f0: Filter,
    s1: Store,
    f1: Filter,
    s2: Store,
    f2: Filter,
    tip: Oid,
    new_tip: Oid,
    r1: Result<Option<Oid>, FilterError>,
    r2: Result<Option<Oid>, FilterError>,
)
    requires
        filter_post(s0, f0, s1, f1, tip, r1),
        filter_post(s1, f1, s2, f2, new_tip, r2),
        r1 is Ok,
    ensures
        s2.extends(&s1),
        tip < f2.cache@.len(),
        f2.cache@[tip as int] == f1.cache@[tip as int],
        r1 == Ok::<Option<Oid>, FilterError>(image_oid(f2.cache@[tip as int]->Some_0)),
{
}

/// A filtered image always has the tree that the view selects.
pub proof fn lemma_image_tree(s: &Store, path: Seq<Seq<u8>>, cache: Seq<CacheEntry>, c: int, t: Oid)
    requires
        cache_ok(s, path, cache),
        0 <= c < cache.len(),
        cache[c] is Some,
        select_spec(s, s.commits@[c].tree, path) == Sel::Dir(t),
    ensures
        cache[c]->Some_0 matches Some(im) && im.tree == t,
{
}

/// A commit added on top of a filtered commit extends the filtered history by
/// at most one commit: its image is the parent's image, or a commit whose only
/// parent is the parent's image.
pub proof fn lemma_filter_extends(s: &Store, path: Seq<Seq<u8>>, cache: Seq<CacheEntry>, c: int)
    requires
        cache_ok(s, path, cache),
        0 <= c < cache.len(),
        cache[c] is Some,
        s.commits@[c].parents@.len() == 1,
        cache[s.commits@[c].parents@[0] as int] matches Some(Some(_)),
    ensures
        ({
            let prev = cache[s.commits@[c].parents@[0] as int]->Some_0->Some_0;
            let img = cache[c]->Some_0;
            &&& img is Some
            &&& img == Some(prev) || s.commits@[img->Some_0.commit as int].parents@ == seq![
                prev.commit,
            ]
        }),
{
    let ps = s.commits@[c].parents@;
    assert(parents_cached(s, cache, c));
    let prev = cache[ps[0] as int]->Some_0->Some_0;
    assert(merged(cache, ps, 0) =~= Seq::<Image>::empty());
    assert(merged(cache, ps, 1) =~= seq![prev]);
    assert(commits_of(seq![prev]) =~= seq![prev.commit]);
}

/// A commit with one parent whose selected subtree equals the parent's has
/// the parent's image: no empty commit is written for it.
pub proof fn lemma_noop_collapse(
    s: &Store,
    path: Seq<Seq<u8>>,
    cache: Seq<CacheEntry>,
    c: int,
    t: Oid,
)
    requires
        cache_ok(s, path, cache),
        0 <= c < cache.len(),
        cache[c] is Some,
        s.commits@[c].parents@.len() == 1,
        select_spec(s, s.commits@[c].tree, path) == Sel::Dir(t),
        select_spec(s, s.commits@[s.commits@[c].parents@[0] as int].tree, path) == Sel::Dir(t),
    ensures
        cache[c] == cache[s.commits@[c].parents@[0] as int],
{
    let ps = s.commits@[c].parents@;
    assert(0 <= ps[0] < cache.len() && cache[ps[0] as int] is Some) by {
        assert(parents_cached(s, cache, c));
    }
    lemma_image_tree(s, path, cache, ps[0] as int, t);
    assert(merged(cache, ps, 0) =~= Seq::<Image>::empty());
}

/// A merge of two parents whose selected subtrees are equal filters to a
/// commit with at most one parent: the image of the first parent, or a new
/// commit whose only parent is that image.
pub proof fn lemma_merge_collapse(
    s: &Store,
    path: Seq<Seq<u8>>,
    cache: Seq<CacheEntry>,
    c: int,
    t: Oid,
    u: Oid,
)
    requires
        cache_ok(s, path, cache),
        0 <= c < cache.len(),
        cache[c] is Some,
        s.commits@[c].parents@.len() == 2,
        select_spec(s, s.commits@[c].tree, path) == Sel::Dir(t),
        select_spec(s, s.commits@[s.commits@[c].parents@[0] as int].tree, path) == Sel::Dir(u),
        select_spec(s, s.commits@[s.commits@[c].parents@[1] as int].tree, path) == Sel::Dir(u),
    ensures
        ({
            let first = cache[s.commits@[c].parents@[0] as int]->Some_0;
            let img = cache[c]->Some_0;
            &&& first is Some
            &&& img is Some
            &&& img == first || s.commits@[img->Some_0.commit as int].parents@ == seq![
                first->Some_0.commit,
            ]
        }),
{
    let ps = s.commits@[c].parents@;
    assert(parents_cached(s, cache, c));
    assert(0 <= ps[0] < cache.len() && cache[ps[0] as int] is Some);
    assert(0 <= ps[1] < cache.len() && cache[ps[1] as int] is Some);
    lemma_image_tree(s, path, cache, ps[0] as int, u);
    lemma_image_tree(s, path, cache, ps[1] as int, u);
    let im1 = cache[ps[0] as int]->Some_0->Some_0;
    assert(merged(cache, ps, 0) =~= Seq::<Image>::empty());
    assert(merged(cache, ps, 1) =~= seq![im1]);
    assert(has_tree(merged(cache, ps, 1), u)) by {
        assert(merged(cache, ps, 1)[0].tree == u);
    }
    assert(merged(cache, ps, 2) =~= seq![im1]);
    assert(commits_of(seq![im1]) =~= seq![im1.commit]);
}

} // verus!
