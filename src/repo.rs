use vstd::prelude::*;

use crate::store::Oid;
use crate::view::bytes_eq;

verus! {

/// A named pointer to a commit.
pub struct Branch {
    pub name: Vec<u8>,
    pub tip: Oid,
}

/// Why a branch update was refused.
#[derive(PartialEq, Eq, Structural, Debug, Clone, Copy)]
pub enum ApplyError {
    /// The branch's tip is not the one the caller expected.
    Conflict,
}

/// Position of the first branch at or after `i` named `name`.
pub open spec fn branch_from(bs: Seq<Branch>, name: Seq<u8>, i: int) -> Option<int>
    decreases bs.len() - i,
{
    if i < 0 || i >= bs.len() {
        None
    } else if bs[i].name@ == name {
        Some(i)
    } else {
        branch_from(bs, name, i + 1)
    }
}

/// The tip of branch `name`, if there is such a branch.
pub open spec fn tip_of(bs: Seq<Branch>, name: Seq<u8>) -> Option<Oid> {
    match branch_from(bs, name, 0) {
        Some(i) => Some(bs[i].tip),
        None => None,
    }
}

pub proof fn lemma_branch_in_range(bs: Seq<Branch>, name: Seq<u8>, i: int)
    ensures
        branch_from(bs, name, i) matches Some(j) ==> i <= j < bs.len() && bs[j].name@ == name,
    decreases bs.len() - i,
{
    if 0 <= i < bs.len() && bs[i].name@ != name {
        lemma_branch_in_range(bs, name, i + 1);
    }
}

/// Changing the tip at position `k` leaves the lookup of every name where it was.
pub proof fn lemma_branch_same_names(a: Seq<Branch>, b: Seq<Branch>, name: Seq<u8>, i: int)
    requires
        a.len() == b.len(),
        forall|m: int| 0 <= m < a.len() ==> #[trigger] a[m].name@ == b[m].name@,
    ensures
        branch_from(a, name, i) == branch_from(b, name, i),
    decreases a.len() - i,
{
    if 0 <= i < a.len() {
        assert(a[i].name@ == b[i].name@);
        lemma_branch_same_names(a, b, name, i + 1);
    }
}

/// Appending a branch changes only the lookup of a name that was absent.
pub proof fn lemma_branch_push(a: Seq<Branch>, x: Branch, name: Seq<u8>, i: int)
    requires
        0 <= i <= a.len(),
    ensures
        branch_from(a.push(x), name, i) == (match branch_from(a, name, i) {
            Some(j) => Some(j),
            None => if x.name@ == name {
                Some(a.len() as int)
            } else {
                None
            },
        }),
    decreases a.len() - i,
{
    if i < a.len() {
        assert(a.push(x)[i] == a[i]);
        lemma_branch_push(a, x, name, i + 1);
    } else {
        assert(a.push(x)[i] == x);
        assert(branch_from(a.push(x), name, i + 1) == None::<int>);
        assert(branch_from(a, name, i) == None::<int>);
    }
}

/// The branch table of the base repository.
pub struct BaseRepo {
    pub branches: Vec<Branch>,
}

impl BaseRepo {
    pub open spec fn tip_spec(&self, name: Seq<u8>) -> Option<Oid> {
        tip_of(self.branches@, name)
    }

    pub fn new() -> (r: BaseRepo)
        ensures
            forall|n: Seq<u8>| #[trigger] r.tip_spec(n) is None,
    {
        BaseRepo { branches: Vec::new() }
    }

    fn find(&self, name: &Vec<u8>) -> (r: Option<usize>)
        ensures
            r is None <==> branch_from(self.branches@, name@, 0) is None,
            r matches Some(i) ==> i < self.branches@.len() && branch_from(self.branches@, name@, 0)
                == Some(i as int),
    {
        let mut i: usize = 0;
        while i < self.branches.len()
            invariant
                0 <= i <= self.branches@.len(),
                branch_from(self.branches@, name@, 0) == branch_from(self.branches@, name@, i as int),
            decreases self.branches@.len() - i,
        {
            if bytes_eq(&self.branches[i].name, name) {
                return Some(i);
            }
            i = i + 1;
        }
        None
    }

    /// The tip of branch `name`.
    pub fn branch_tip(&self, name: &Vec<u8>) -> (r: Option<Oid>)
        ensures
            r == self.tip_spec(name@),
    {
        match self.find(name) {
            Some(i) => Some(self.branches[i].tip),
            None => None,
        }
    }

    /// Compare-and-swap of a branch: moves `name` to `new_tip` only where its
    /// tip is `expected` (`None`: the branch does not exist yet, and is made).
    pub fn apply(&mut self, name: &Vec<u8>, new_tip: Oid, expected: Option<Oid>) -> (r: Result<(), ApplyError>)
        ensures
            r is Ok <==> old(self).tip_spec(name@) == expected,
            r is Ok ==> final(self).tip_spec(name@) == Some(new_tip),
            r is Ok ==> forall|n: Seq<u8>| n != name@ ==> #[trigger] final(self).tip_spec(n) == old(self).tip_spec(n),
            r is Err ==> final(self).branches@ == old(self).branches@,
    {
        let ghost before = self.branches@;
        match self.find(name) {
            Some(i) => {
                if Some(self.branches[i].tip) != expected {
                    return Err(ApplyError::Conflict);
                }
                self.branches[i].tip = new_tip;
                proof {
                    assert forall|m: int| 0 <= m < before.len() implies #[trigger] before[m].name@
                        == self.branches@[m].name@ by {
                        if m != i {
                            assert(before[m] == self.branches@[m]);
                        }
                    }
                    assert forall|n: Seq<u8>| n != name@ implies #[trigger] tip_of(self.branches@, n)
                        == tip_of(before, n) by {
                        lemma_branch_same_names(before, self.branches@, n, 0);
                        lemma_branch_in_range(before, n, 0);
                        if let Some(j) = branch_from(before, n, 0) {
                            if j == i {
                                lemma_branch_in_range(before, name@, 0);
                            }
                        }
                    }
                    lemma_branch_same_names(before, self.branches@, name@, 0);
                }
                Ok(())
            },
            None => {
                if expected.is_some() {
                    return Err(ApplyError::Conflict);
                }
                let b = Branch { name: name.clone(), tip: new_tip };
                self.branches.push(b);
                proof {
                    lemma_branch_push(before, b, name@, 0);
                    assert forall|n: Seq<u8>| n != name@ implies #[trigger] tip_of(self.branches@, n)
                        == tip_of(before, n) by {
                        lemma_branch_push(before, b, n, 0);
                        lemma_branch_in_range(before, n, 0);
                    }
                }
                Ok(())
            },
        }
    }
}

/// Who holds the lock of the base repository: readers filter, a writer
/// fetches or applies.
pub struct RepoLock {
    pub readers: u64,
    pub writer: bool,
}

impl RepoLock {
    /// A writer excludes every other holder.
    pub open spec fn wf(&self) -> bool {
        self.writer ==> self.readers == 0
    }

    pub fn new() -> (r: RepoLock)
        ensures
            r.wf(),
            r.readers == 0,
            !r.writer,
    {
        RepoLock { readers: 0, writer: false }
    }

    /// Takes a read hold where no writer holds the lock.
    pub fn try_read(&mut self) -> (r: bool)
        requires
            old(self).wf(),
        ensures
            final(self).wf(),
            r == (!old(self).writer && old(self).readers < u64::MAX),
            r ==> final(self).readers == old(self).readers + 1 && !final(self).writer,
            !r ==> *final(self) == *old(self),
    {
        if self.writer || self.readers == u64::MAX {
            false
        } else {
            self.readers = self.readers + 1;
            true
        }
    }

    /// Takes the write hold where nobody holds the lock.
    pub fn try_write(&mut self) -> (r: bool)
        requires
            old(self).wf(),
        ensures
            final(self).wf(),
            r == (!old(self).writer && old(self).readers == 0),
            r ==> final(self).writer && final(self).readers == 0,
            !r ==> *final(self) == *old(self),
    {
        if self.writer || self.readers > 0 {
            false
        } else {
            self.writer = true;
            true
        }
    }

    pub fn release_read(&mut self)
        requires
            old(self).wf(),
            old(self).readers > 0,
        ensures
            final(self).wf(),
            final(self).readers == old(self).readers - 1,
            final(self).writer == old(self).writer,
    {
        self.readers = self.readers - 1;
    }

    pub fn release_write(&mut self)
        requires
            old(self).wf(),
            old(self).writer,
        ensures
            final(self).wf(),
            final(self).readers == 0,
            !final(self).writer,
    {
        self.writer = false;
    }
}

/// While a fetch or an apply holds the lock, nothing else does: a second
/// writer and any reader are refused.
pub proof fn lemma_writer_exclusive(l: RepoLock)
    requires
        l.wf(),
        l.writer,
    ensures
        l.readers == 0,
        !(!l.writer && l.readers == 0),
        !(!l.writer && l.readers < u64::MAX),
{
}

/// How many times the update hook grafts again after a conflict.
pub const MAX_ATTEMPTS: u32 = 5;

/// What happened to one attempt to write a graft into the base repository.
#[derive(PartialEq, Eq, Structural, Debug, Clone, Copy)]
pub enum AttemptOutcome {
    Applied,
    Conflict,
    GraftFailed,
}

/// What the update hook does next.
#[derive(PartialEq, Eq, Structural, Debug, Clone, Copy)]
pub enum HookAction {
    /// The push is accepted.
    Accept,
    /// Graft again against the refreshed tip; the attempt number is given.
    Retry(u32),
    /// The push is rejected.
    Reject,
}

/// The hook's decision after attempt number `attempt` (counted from 0).
pub fn hook_step(attempt: u32, outcome: AttemptOutcome) -> (r: HookAction)
    ensures
        outcome == AttemptOutcome::Applied ==> r == HookAction::Accept,
        outcome == AttemptOutcome::GraftFailed ==> r == HookAction::Reject,
        outcome == AttemptOutcome::Conflict ==> r == (if attempt + 1 < MAX_ATTEMPTS {
            HookAction::Retry((attempt + 1) as u32)
        } else {
            HookAction::Reject
        }),
{
    match outcome {
        AttemptOutcome::Applied => HookAction::Accept,
        AttemptOutcome::GraftFailed => HookAction::Reject,
        AttemptOutcome::Conflict => {
            if attempt < MAX_ATTEMPTS - 1 {
                HookAction::Retry(attempt + 1)
            } else {
                HookAction::Reject
            }
        },
    }
}

} // verus!
