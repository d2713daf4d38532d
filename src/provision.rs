use vstd::prelude::*;

use crate::filter::{cache_grows, history_ok, image_oid, lemma_history_stable, Filter, FilterError};
use crate::repo::BaseRepo;
use crate::store::{Oid, Store};

verus! {

/// A branch of a virtual repository: the filtered image of a base branch.
pub struct FilteredBranch {
    pub name: Vec<u8>,
    pub tip: Option<Oid>,
}

/// Every base branch tip has an entry in the filter's cache.
pub open spec fn all_filtered(f: &Filter, repo: &BaseRepo) -> bool {
    forall|i: int|
        0 <= i < repo.branches@.len() ==> {
            let t = #[trigger] repo.branches@[i].tip;
            t < f.cache@.len() && f.cache@[t as int] is Some
        }
}

/// The tip names a commit of the store whose history the view can filter.
pub open spec fn tip_ok(s: &Store, path: Seq<Seq<u8>>, t: Oid) -> bool {
    t < s.commits@.len() && history_ok(s, path, t as int)
}

/// Filters every branch of the base repository through the filter's view.
/// Branches filtered before are answered from the cache; where every branch
/// was, no object is written.
pub fn provision(f: &mut Filter, s: &mut Store, repo: &BaseRepo) -> (r: Result<
    Vec<FilteredBranch>,
    FilterError,
>)
    requires
        old(s).wf(),
        old(f).wf(old(s)),
    ensures
        final(s).wf(),
        final(s).extends(old(s)),
        final(f).view == old(f).view,
        final(f).wf(final(s)),
        cache_grows(old(f).cache@, final(f).cache@, u64::MAX as int),
        all_filtered(old(f), repo) ==> *final(s) == *old(s) && r is Ok,
        match r {
            Ok(v) => {
                &&& v@.len() == repo.branches@.len()
                &&& all_filtered(final(f), repo)
                &&& forall|i: int|
                    0 <= i < v@.len() ==> {
                        let t = repo.branches@[i].tip;
                        &&& #[trigger] v@[i].name@ == repo.branches@[i].name@
                        &&& v@[i].tip == image_oid(final(f).cache@[t as int]->Some_0)
                    }
            },
            Err(FilterError::CorruptHistory) => exists|i: int|
                0 <= i < repo.branches@.len() && #[trigger] repo.branches@[i].tip
                    >= old(s).commits@.len(),
            Err(FilterError::InvalidView) => exists|i: int|
                0 <= i < repo.branches@.len() && !tip_ok(old(s), old(f).path(), #[trigger] repo.branches@[i].tip),
            Err(FilterError::StoreFull) => final(s).commits@.len() + 1 >= u64::MAX,
        },
        (forall|i: int| 0 <= i < repo.branches@.len() ==> tip_ok(old(s), old(f).path(), #[trigger] repo.branches@[i].tip))
            ==> (r is Ok || r == Err::<Vec<FilteredBranch>, FilterError>(FilterError::StoreFull)),
{
    let ghost s0 = *s;
    let ghost c0 = f.cache@;
    let mut out: Vec<FilteredBranch> = Vec::new();
    let mut i: usize = 0;
    while i < repo.branches.len()
        invariant
            0 <= i <= repo.branches@.len(),
            s0 == *old(s),
            c0 == old(f).cache@,
            s.wf(),
            s.extends(&s0),
            f.view == old(f).view,
            f.wf(s),
            cache_grows(c0, f.cache@, u64::MAX as int),
            all_filtered(old(f), repo) ==> *s == s0,
            s0.wf(),
            out@.len() == i,
            forall|k: int|
                0 <= k < i ==> {
                    let t = #[trigger] repo.branches@[k].tip;
                    &&& t < f.cache@.len()
                    &&& f.cache@[t as int] is Some
                    &&& out@[k].name@ == repo.branches@[k].name@
                    &&& out@[k].tip == image_oid(f.cache@[t as int]->Some_0)
                },
        decreases repo.branches@.len() - i,
    {
        let tip = repo.branches[i].tip;
        let ghost s1 = *s;
        let ghost c1 = f.cache@;
        let res = f.filter(s, tip);
        proof {
            Store::lemma_extends_trans(&s0, &s1, s);
            assert forall|k: int| 0 <= k < c0.len() && c0[k] is Some implies #[trigger] f.cache@[k]
                == c0[k] by {
                assert(c1[k] == c0[k]);
            }
            if all_filtered(old(f), repo) {
                let t = repo.branches@[i as int].tip;
                assert(c1[t as int] == c0[t as int]);
            }
        }
        match res {
            Ok(o) => {
                proof {
                    assert forall|k: int| 0 <= k < i + 1 implies {
                        let t = #[trigger] repo.branches@[k].tip;
                        &&& t < f.cache@.len()
                        &&& f.cache@[t as int] is Some
                        &&& (if k < i { out@[k].name@ } else { repo.branches@[k].name@ }) == repo.branches@[k].name@
                        &&& (if k < i { out@[k].tip } else { o }) == image_oid(f.cache@[t as int]->Some_0)
                    } by {
                        if k < i {
                            let t = repo.branches@[k].tip;
                            assert(c1[t as int] is Some);
                        }
                    }
                }
                let ghost before = out@;
                out.push(FilteredBranch { name: repo.branches[i].name.clone(), tip: o });
                proof {
                    assert forall|k: int| 0 <= k < i + 1 implies {
                        let t = #[trigger] repo.branches@[k].tip;
                        &&& t < f.cache@.len()
                        &&& f.cache@[t as int] is Some
                        &&& out@[k].name@ == repo.branches@[k].name@
                        &&& out@[k].tip == image_oid(f.cache@[t as int]->Some_0)
                    } by {
                        if k < i {
                            assert(out@[k] == before[k]);
                        }
                    }
                }
            },
            Err(e) => {
                proof {
                    let t = repo.branches@[i as int].tip;
                    if t < s0.commits@.len() {
                        lemma_history_stable(&s0, &s1, old(f).path(), t as int);
                    }
                }
                return Err(e);
            },
        }
        i = i + 1;
    }
    proof {
        assert forall|k: int| 0 <= k < repo.branches@.len() implies {
            let t = #[trigger] repo.branches@[k].tip;
            t < f.cache@.len() && f.cache@[t as int] is Some
        } by {}
    }
    Ok(out)
}

} // verus!
