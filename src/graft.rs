use vstd::prelude::*;

use crate::filter::{cache_ok, lemma_image_tree, CacheEntry};
use crate::repo::{ApplyError, BaseRepo};
use crate::store::{Commit, Entry, Oid, Store, Tree};
use crate::view::{find_entry, find_from, select_from, select_spec, PathView, Sel};

verus! {

/// Why a filtered commit cannot be put back into the full history.
#[derive(PartialEq, Eq, Structural, Debug, Clone, Copy)]
pub enum GraftError {
    /// The view's path is not a directory of the unfiltered parent's tree.
    GraftTargetMissing,
    /// Base branch tips with different commits share the filtered parent.
    AmbiguousGraft,
    /// A commit named is not in the store.
    CorruptHistory,
    /// The store has no room for the objects to write.
    StoreFull,
}

/// Two entries with the same name, kind and object.
pub open spec fn same_entry(a: Entry, b: Entry) -> bool {
    a.name@ == b.name@ && a.is_tree == b.is_tree && a.oid == b.oid
}

/// Tree `o` is tree `t` with the subtree at `path` (from component `k` on)
/// replaced by `sub`: every other entry, at every level, is kept as it was.
pub open spec fn replaced(s: &Store, o: Oid, t: Oid, path: Seq<Seq<u8>>, k: int, sub: Oid) -> bool
    decreases path.len() - k,
{
    if k < 0 || k >= path.len() {
        o == sub
    } else {
        let old_es = s.trees@[t as int].entries@;
        let new_es = s.trees@[o as int].entries@;
        match find_from(old_es, path[k], 0) {
            None => false,
            Some(i) => {
                &&& o < s.trees@.len()
                &&& old_es[i].is_tree
                &&& new_es.len() == old_es.len()
                &&& forall|m: int|
                    0 <= m < old_es.len() && m != i ==> same_entry(#[trigger] new_es[m], old_es[m])
                &&& new_es[i].name@ == old_es[i].name@
                &&& new_es[i].is_tree
                &&& replaced(s, new_es[i].oid, old_es[i].oid, path, k + 1, sub)
            },
        }
    }
}

pub proof fn lemma_find_same_names(
    a: Seq<Entry>,
    b: Seq<Entry>,
    name: Seq<u8>,
    j: int,
)
    requires
        a.len() == b.len(),
        forall|m: int| 0 <= m < a.len() ==> #[trigger] a[m].name@ == b[m].name@,
    ensures
        find_from(a, name, j) == find_from(b, name, j),
    decreases a.len() - j,
{
    if 0 <= j < a.len() {
        assert(a[j].name@ == b[j].name@);
        lemma_find_same_names(a, b, name, j + 1);
    }
}

/// Selecting the path in a tree where it was replaced finds the new subtree.
pub proof fn lemma_select_replaced(s: &Store, o: Oid, t: Oid, path: Seq<Seq<u8>>, k: int, sub: Oid)
    requires
        replaced(s, o, t, path, k, sub),
        0 <= k,
    ensures
        select_from(s, o, path, k) == Sel::Dir(sub),
    decreases path.len() - k,
{
    if k < path.len() {
        let old_es = s.trees@[t as int].entries@;
        let new_es = s.trees@[o as int].entries@;
        let i = find_from(old_es, path[k], 0)->Some_0;
        assert forall|m: int| 0 <= m < old_es.len() implies #[trigger] old_es[m].name@
            == new_es[m].name@ by {
            if m != i {
                assert(same_entry(new_es[m], old_es[m]));
            }
        }
        lemma_find_same_names(old_es, new_es, path[k], 0);
        lemma_select_replaced(s, new_es[i].oid, old_es[i].oid, path, k + 1, sub);
    }
}

/// A path that was replaced in a tree is a directory of that tree.
pub proof fn lemma_replaced_was_dir(s: &Store, o: Oid, t: Oid, path: Seq<Seq<u8>>, k: int, sub: Oid)
    requires
        replaced(s, o, t, path, k, sub),
        0 <= k,
    ensures
        select_from(s, t, path, k) is Dir,
    decreases path.len() - k,
{
    if k < path.len() {
        let old_es = s.trees@[t as int].entries@;
        let new_es = s.trees@[o as int].entries@;
        let i = find_from(old_es, path[k], 0)->Some_0;
        lemma_replaced_was_dir(s, new_es[i].oid, old_es[i].oid, path, k + 1, sub);
    }
}

pub proof fn lemma_replaced_stable(
    s1: &Store,
    s2: &Store,
    o: Oid,
    t: Oid,
    path: Seq<Seq<u8>>,
    k: int,
    sub: Oid,
)
    requires
        s2.extends(s1),
        replaced(s1, o, t, path, k, sub),
        t < s1.trees@.len(),
        s1.wf(),
    ensures
        replaced(s2, o, t, path, k, sub),
    decreases path.len() - k,
{
    if 0 <= k < path.len() {
        let old_es = s1.trees@[t as int].entries@;
        let i = find_from(old_es, path[k], 0)->Some_0;
        crate::filter::lemma_find_in_range(old_es, path[k], 0);
        assert(s2.trees@[t as int] == s1.trees@[t as int]);
        assert(s2.trees@[o as int] == s1.trees@[o as int]);
        assert(s1.tree_ok(s1.trees@[t as int]));
        assert(s1.entry_ok(old_es[i]));
        lemma_replaced_stable(s1, s2, s1.trees@[o as int].entries@[i].oid, old_es[i].oid, path, k + 1, sub);
    }
}

fn clone_bytes(v: &Vec<u8>) -> (r: Vec<u8>)
    ensures
        r@ == v@,
{
    v.clone()
}

/// Writes the trees that make tree `t` hold `sub` at the path from component `k` on.
fn replace_from(s: &mut Store, t: Oid, view: &PathView, k: usize, sub: Oid) -> (r: Result<Oid, GraftError>)
    requires
        old(s).wf(),
        t < old(s).trees@.len(),
        sub < old(s).trees@.len(),
        k <= view.path@.len(),
    ensures
        final(s).wf(),
        final(s).extends(old(s)),
        match r {
            Ok(o) => o < final(s).trees@.len() && replaced(final(s), o, t, view.spec_path(), k as int, sub),
            Err(GraftError::GraftTargetMissing) => !(select_from(
                old(s),
                t,
                view.spec_path(),
                k as int,
            ) is Dir),
            Err(GraftError::StoreFull) => final(s).trees@.len() + 1 >= u64::MAX,
            Err(_) => false,
        },
        (select_from(old(s), t, view.spec_path(), k as int) is Dir) ==> !(r matches Err(
            GraftError::GraftTargetMissing,
        )),
    decreases view.path@.len() - k,
{
    let ghost path = view.spec_path();
    let ghost s0 = *s;
    if k == view.path.len() {
        return Ok(sub);
    }
    let ntrees = s.trees.len();
    assert(t < ntrees);
    let tu = t as usize;
    assert(path[k as int] == view.path@[k as int]@);
    let found = find_entry(&s.trees[tu].entries, &view.path[k]);
    let i = match found {
        None => {
            return Err(GraftError::GraftTargetMissing);
        },
        Some(i) => i,
    };
    if !s.trees[tu].entries[i].is_tree {
        return Err(GraftError::GraftTargetMissing);
    }
    proof {
        assert(s.tree_ok(s.trees@[t as int]));
        assert(s.entry_ok(s.trees@[t as int].entries@[i as int]));
    }
    let child = s.trees[tu].entries[i].oid;
    let new_child = match replace_from(s, child, view, k + 1, sub) {
        Ok(o) => o,
        Err(e) => {
            return Err(e);
        },
    };
    if s.trees.len() as u64 + 1 >= u64::MAX {
        return Err(GraftError::StoreFull);
    }
    let ghost s1 = *s;
    proof {
        assert(s1.trees@[t as int] == s0.trees@[t as int]);
    }
    let n = s.trees[tu].entries.len();
    let mut entries: Vec<Entry> = Vec::new();
    let mut m: usize = 0;
    while m < n
        invariant
            s1.wf(),
            *s == s1,
            t < s1.trees@.len(),
            n == s1.trees@[t as int].entries@.len(),
            0 <= i < n,
            0 <= m <= n,
            new_child < s1.trees@.len(),
            entries@.len() == m,
            tu == t,
            forall|j: int| 0 <= j < m && j != i ==> same_entry(#[trigger] entries@[j],
                s1.trees@[t as int].entries@[j]),
            i < m ==> entries@[i as int].name@ == s1.trees@[t as int].entries@[i as int].name@
                && entries@[i as int].is_tree && entries@[i as int].oid == new_child,
            forall|j: int| 0 <= j < m ==> #[trigger] s1.entry_ok(entries@[j]),
        decreases n - m,
    {
        let ghost old_entries = entries@;
        proof {
            assert(s1.tree_ok(s1.trees@[t as int]));
            assert(s1.entry_ok(s1.trees@[t as int].entries@[m as int]));
        }
        if m == i {
            entries.push(Entry { name: clone_bytes(&s.trees[tu].entries[m].name), is_tree: true, oid: new_child });
        } else {
            let e = &s.trees[tu].entries[m];
            entries.push(Entry { name: clone_bytes(&e.name), is_tree: e.is_tree, oid: e.oid });
            proof {
                assert(same_entry(entries@[m as int], s1.trees@[t as int].entries@[m as int]));
            }
        }
        proof {
            assert forall|j: int| 0 <= j < m + 1 && j != i implies same_entry(#[trigger] entries@[j],
                s1.trees@[t as int].entries@[j]) by {
                if j < m {
                    assert(entries@[j] == old_entries[j]);
                }
            }
        }
        m = m + 1;
    }
    let o = s.trees.len() as u64;
    proof {
        assert(s.tree_ok(Tree { entries }));
    }
    s.push_tree(Tree { entries });
    proof {
        Store::lemma_extends_trans(&s0, &s1, s);
        lemma_replaced_stable(&s1, s, new_child, child, path, k + 1, sub);
        assert(s.trees@[t as int] == s1.trees@[t as int]);
        assert(find_from(s.trees@[t as int].entries@, path[k as int], 0) == Some(i as int));
    }
    Ok(o)
}

/// What one call of `graft` does, from store `s0` to `s1`.
pub open spec fn graft_post(
    s0: Store,
    s1: Store,
    path: Seq<Seq<u8>>,
    fc: Oid,
    parent: Oid,
    r: Result<Oid, GraftError>,
) -> bool {
    let n = s0.commits@.len();
    &&& s1.wf()
    &&& s1.extends(&s0)
    &&& match r {
        Ok(g) => {
            let src = s0.commits@[fc as int];
            let base = s0.commits@[parent as int];
            let made = s1.commits@[g as int];
            &&& fc < n
            &&& parent < n
            &&& n <= g < s1.commits@.len()
            &&& select_spec(&s0, base.tree, path) is Dir
            &&& replaced(&s1, made.tree, base.tree, path, 0, src.tree)
            &&& made.parents@ == seq![parent]
            &&& made.author@ == src.author@
            &&& made.message@ == src.message@
        },
        Err(GraftError::CorruptHistory) => fc >= n || parent >= n,
        Err(GraftError::GraftTargetMissing) => fc < n && parent < n && !(select_spec(
            &s0,
            s0.commits@[parent as int].tree,
            path,
        ) is Dir),
        Err(GraftError::StoreFull) => fc < n && parent < n && (s1.trees@.len() + 1 >= u64::MAX
            || s1.commits@.len() + 1 >= u64::MAX),
        Err(GraftError::AmbiguousGraft) => false,
    }
}

/// Makes a commit of the full tree from filtered commit `fc`: the tree of
/// `parent` with the view's subtree replaced by the tree of `fc`, `parent` as
/// its only parent, and the attribution of `fc`.
pub fn graft(s: &mut Store, view: &PathView, fc: Oid, parent: Oid) -> (r: Result<Oid, GraftError>)
    requires
        old(s).wf(),
    ensures
        graft_post(*old(s), *final(s), view.spec_path(), fc, parent, r),
{
    let ghost s0 = *s;
    let n = s.commits.len();
    if fc >= n as u64 || parent >= n as u64 {
        return Err(GraftError::CorruptHistory);
    }
    proof {
        assert(s.commit_ok(s.commits@[fc as int], fc as int));
        assert(s.commit_ok(s.commits@[parent as int], parent as int));
    }
    let sub = s.commits[fc as usize].tree;
    let base = s.commits[parent as usize].tree;
    let author = clone_bytes(&s.commits[fc as usize].author);
    let message = clone_bytes(&s.commits[fc as usize].message);
    let tree = match replace_from(s, base, view, 0, sub) {
        Ok(o) => o,
        Err(e) => {
            return Err(e);
        },
    };
    if s.commits.len() as u64 + 1 >= u64::MAX {
        return Err(GraftError::StoreFull);
    }
    let g = s.commits.len() as u64;
    let mut parents: Vec<Oid> = Vec::new();
    parents.push(parent);
    let ghost s1 = *s;
    proof {
        assert(parents@ =~= seq![parent]);
        assert(s1.commits@[fc as int] == s0.commits@[fc as int]);
        assert(s1.commits@[parent as int] == s0.commits@[parent as int]);
    }
    s.push_commit(Commit { tree, parents, author, message });
    proof {
        Store::lemma_extends_trans(&s0, &s1, s);
        lemma_replaced_stable(&s1, s, tree, base, view.spec_path(), 0, sub);
        lemma_replaced_was_dir(s, tree, base, view.spec_path(), 0, sub);
        crate::filter::lemma_select_stable(&s0, s, base, view.spec_path(), 0);
        assert(s.commits@[g as int].tree == tree);
        assert(s.commits@[fc as int] == s0.commits@[fc as int]);
        assert(s.commits@[parent as int] == s0.commits@[parent as int]);
    }
    Ok(g)
}

/// A tree made by `graft` and then filtered through the same view gives back
/// the tree of the filtered commit that was grafted: whatever filter cache
/// later holds the grafted commit has that tree as its image.
pub proof fn lemma_graft_round_trip(
    s0: Store,
    s1: Store,
    path: Seq<Seq<u8>>,
    fc: Oid,
    parent: Oid,
    g: Oid,
    s2: Store,
    cache: Seq<CacheEntry>,
)
    requires
        graft_post(s0, s1, path, fc, parent, Ok(g)),
        s2.extends(&s1),
        cache_ok(&s2, path, cache),
        g < cache.len(),
        cache[g as int] is Some,
    ensures
        select_spec(&s1, s1.commits@[g as int].tree, path) == Sel::Dir(s0.commits@[fc as int].tree),
        cache[g as int]->Some_0 matches Some(im) && im.tree == s0.commits@[fc as int].tree,
{
    let t = s1.commits@[g as int].tree;
    lemma_select_replaced(&s1, t, s0.commits@[parent as int].tree, path, 0, s0.commits@[fc as int].tree);
    assert(s1.commit_ok(s1.commits@[g as int], g as int));
    crate::filter::lemma_select_stable(&s1, &s2, t, path, 0);
    assert(s2.commits@[g as int] == s1.commits@[g as int]);
    lemma_image_tree(&s2, path, cache, g as int, s0.commits@[fc as int].tree);
}

/// Picks the unfiltered parent for a commit whose filtered parent is `fparent`.
/// `tips` are base branch tips and `images` their filtered images, pairwise.
/// The tips whose image is `fparent` decide: none of them gives `fallback`,
/// one commit among them gives that commit, and two different commits make
/// the graft ambiguous.
pub fn resolve_parent(
    tips: &Vec<Oid>,
    images: &Vec<Option<Oid>>,
    fparent: Oid,
    fallback: Oid,
) -> (r: Result<Oid, GraftError>)
    requires
        tips@.len() == images@.len(),
    ensures
        match r {
            Ok(o) => {
                ||| (forall|i: int| 0 <= i < tips@.len() ==> #[trigger] images@[i] != Some(fparent))
                    && o == fallback
                ||| (exists|i: int| 0 <= i < tips@.len() && #[trigger] images@[i] == Some(fparent)
                    && tips@[i] == o) && (forall|i: int|
                    0 <= i < tips@.len() && #[trigger] images@[i] == Some(fparent) ==> tips@[i]
                        == o)
            },
            Err(e) => e == GraftError::AmbiguousGraft && exists|i: int, j: int|
                0 <= i < tips@.len() && 0 <= j < tips@.len() && #[trigger] images@[i] == Some(
                    fparent,
                ) && #[trigger] images@[j] == Some(fparent) && tips@[i] != tips@[j],
        },
{
    let mut found: Option<usize> = None;
    let mut i: usize = 0;
    while i < tips.len()
        invariant
            tips@.len() == images@.len(),
            0 <= i <= tips@.len(),
            match found {
                None => forall|k: int| 0 <= k < i ==> #[trigger] images@[k] != Some(fparent),
                Some(f) => f < i && images@[f as int] == Some(fparent) && forall|k: int|
                    0 <= k < i && #[trigger] images@[k] == Some(fparent) ==> tips@[k] == tips@[f as int],
            },
        decreases tips@.len() - i,
    {
        if images[i] == Some(fparent) {
            match found {
                None => {
                    found = Some(i);
                },
                Some(f) => {
                    if tips[f] != tips[i] {
                        return Err(GraftError::AmbiguousGraft);
                    }
                },
            }
        }
        i = i + 1;
    }
    match found {
        None => Ok(fallback),
        Some(f) => Ok(tips[f]),
    }
}

/// Why a push into a virtual repository was not written into the base repository.
#[derive(PartialEq, Eq, Structural, Debug, Clone, Copy)]
pub enum PushError {
    /// The base repository has no branch of that name.
    UnknownBranch,
    Graft(GraftError),
    Apply(ApplyError),
}

/// Grafts pushed filtered commit `fc` onto the current tip of base branch
/// `branch` and moves the branch to the result, by compare-and-swap.
pub fn apply_push(
    s: &mut Store,
    repo: &mut BaseRepo,
    view: &PathView,
    branch: &Vec<u8>,
    fc: Oid,
) -> (r: Result<Oid, PushError>)
    requires
        old(s).wf(),
    ensures
        final(s).wf(),
        final(s).extends(old(s)),
        old(repo).tip_spec(branch@) is None ==> r == Err::<Oid, PushError>(PushError::UnknownBranch),
        match r {
            Ok(g) => {
                let tip = old(repo).tip_spec(branch@)->Some_0;
                &&& old(repo).tip_spec(branch@) is Some
                &&& graft_post(*old(s), *final(s), view.spec_path(), fc, tip, Ok(g))
                &&& final(repo).tip_spec(branch@) == Some(g)
                &&& forall|n: Seq<u8>| n != branch@ ==> #[trigger] final(repo).tip_spec(n) == old(repo).tip_spec(n)
            },
            Err(PushError::Graft(e)) => old(repo).tip_spec(branch@) is Some && graft_post(
                *old(s),
                *final(s),
                view.spec_path(),
                fc,
                old(repo).tip_spec(branch@)->Some_0,
                Err(e),
            ) && final(repo).branches@ == old(repo).branches@,
            Err(PushError::Apply(_)) => false,
            Err(PushError::UnknownBranch) => old(repo).tip_spec(branch@) is None
                && *final(s) == *old(s) && final(repo).branches@ == old(repo).branches@,
        },
{
    let tip = match repo.branch_tip(branch) {
        Some(t) => t,
        None => {
            return Err(PushError::UnknownBranch);
        },
    };
    let g = match graft(s, view, fc, tip) {
        Ok(g) => g,
        Err(e) => {
            return Err(PushError::Graft(e));
        },
    };
    match repo.apply(branch, g, Some(tip)) {
        Ok(()) => Ok(g),
        Err(e) => Err(PushError::Apply(e)),
    }
}

} // verus!
