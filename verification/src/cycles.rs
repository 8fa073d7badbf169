//! Cycle detection for path finding.
//!
//! Path finding on a graph with cycles would run forever without a bound.
//! Two mechanisms bound it. The similar-path detector groups candidate
//! paths by a similarity key and keeps, per group, only paths that do not
//! shadow one another. The appending cycle detector tracks the appendables
//! each in-flight path was built from and classifies any cycle a new
//! extension would close. Complete cycle detection is impossible, so both
//! are heuristics: they guarantee termination at the price of dropping
//! some paths in deeply recursive graphs.

use vstd::prelude::*;

use crate::graph::NodeHandle;
use crate::graph::StackGraph;
use crate::partial::spec_path_wf;
use crate::partial::spec_shadows;
use crate::partial::Cyclicity;
use crate::partial::PartialPath;
use crate::stitching::Appendable;
use crate::stitching::Database;

verus! {

/// The similarity key of a partial path: its endpoints and the lengths of
/// its four stack conditions.
#[derive(Clone, Copy, Debug, PartialEq, Eq, Hash, Structural)]
pub struct PathKey {
    pub start_node: crate::graph::NodeHandle,
    pub end_node: crate::graph::NodeHandle,
    pub symbol_stack_precondition_len: usize,
    pub scope_stack_precondition_len: usize,
    pub symbol_stack_postcondition_len: usize,
    pub scope_stack_postcondition_len: usize,
}

/// Types that can be grouped by a similarity key.
pub trait HasPathKey {
    spec fn spec_key(&self) -> PathKey;

    fn key(&self) -> (r: PathKey)
        ensures
            r == self.spec_key(),
    ;
}

/// The similarity key of a partial-path value.
pub open spec fn spec_key_of(v: crate::partial::PartialPathView) -> PathKey {
    PathKey {
        start_node: v.start_node,
        end_node: v.end_node,
        symbol_stack_precondition_len: v.sym_pre.symbols.len() as usize,
        scope_stack_precondition_len: v.scope_pre.scopes.len() as usize,
        symbol_stack_postcondition_len: v.sym_post.symbols.len() as usize,
        scope_stack_postcondition_len: v.scope_post.scopes.len() as usize,
    }
}

impl HasPathKey for PartialPath {
    open spec fn spec_key(&self) -> PathKey {
        spec_key_of(self@)
    }

    fn key(&self) -> (r: PathKey) {
        PathKey {
            start_node: self.start_node,
            end_node: self.end_node,
            symbol_stack_precondition_len: self.symbol_stack_precondition.len(),
            scope_stack_precondition_len: self.scope_stack_precondition.len(),
            symbol_stack_postcondition_len: self.symbol_stack_postcondition.len(),
            scope_stack_postcondition_len: self.scope_stack_postcondition.len(),
        }
    }
}

/// The batch holds exactly the value `x`.
pub open spec fn spec_member(b: Seq<PartialPath>, x: PartialPath) -> bool {
    exists|j: int| 0 <= j < b.len() && #[trigger] b[j] == x
}

/// No path in the bucket shadows another path of the same bucket.
pub open spec fn spec_bucket_wf(b: Seq<PartialPath>) -> bool {
    forall|i: int, j: int|
        0 <= i < b.len() && 0 <= j < b.len() && i != j ==> !spec_shadows(
            (#[trigger] b[i])@,
            (#[trigger] b[j])@,
        )
}

/// Detects and limits similar paths. Paths are grouped by their
/// similarity key; within a group, a path that is equal to or shadowed by
/// a retained path is rejected, and a retained path shadowed by a new
/// path is evicted. The detector therefore never retains two paths with
/// the same similarity key where one shadows the other.
pub struct SimilarPathDetector {
    pub buckets: Vec<(PathKey, Vec<PartialPath>)>,
    pub counts: Option<Vec<(PathKey, Vec<usize>)>>,
}

impl SimilarPathDetector {
    /// Bucket keys are unique, every retained path carries its bucket's
    /// similarity key, and every bucket is free of internal shadowing: no
    /// two retained paths with the same key shadow one another.
    pub open spec fn wf(&self) -> bool {
        &&& forall|i: int, j: int|
            0 <= i < j < self.buckets@.len() ==> (#[trigger] self.buckets@[i]).0 != (
            #[trigger] self.buckets@[j]).0
        &&& forall|i: int, j: int|
            0 <= i < self.buckets@.len() && 0 <= j < self.buckets@[i].1@.len() ==> (
            #[trigger] self.buckets@[i].1@[j]).spec_key() == self.buckets@[i].0
        &&& forall|i: int|
            0 <= i < self.buckets@.len() ==> spec_bucket_wf((#[trigger] self.buckets@[i]).1@)
    }

    /// Creates an empty detector that collects no statistics.
    pub fn new() -> (r: SimilarPathDetector)
        ensures
            r.wf(),
            r.buckets@.len() == 0,
            r.counts is None,
    {
        SimilarPathDetector { buckets: Vec::new(), counts: None }
    }

    /// Switches statistics collection on or off; switching it off drops
    /// any counts collected so far, and switching it on while already
    /// collecting keeps them, so the call is idempotent.
    pub fn set_collect_stats(&mut self, collect_stats: bool)
        requires
            old(self).wf(),
        ensures
            final(self).wf(),
            final(self).buckets == old(self).buckets,
            collect_stats == (final(self).counts is Some),
            collect_stats && old(self).counts is Some ==> final(self).counts == old(self).counts,
            !collect_stats ==> final(self).counts is None,
    {
        if !collect_stats {
            self.counts = None;
        } else if self.counts.is_none() {
            self.counts = Some(Vec::new());
        }
    }

    /// True when some retained path is equal to `p` or shadows `p`.
    pub open spec fn spec_retains_similar(&self, p: crate::partial::PartialPathView) -> bool {
        exists|i: int, j: int|
            #![trigger self.buckets@[i].1@[j]]
            0 <= i < self.buckets@.len() && 0 <= j < self.buckets@[i].1@.len() && (
            crate::partial::spec_path_equals(p, self.buckets@[i].1@[j]@) || spec_shadows(
                self.buckets@[i].1@[j]@,
                p,
            ))
    }

    /// True when the bucket tracked under `key` retains a path that is
    /// equal to `p` or shadows `p`: exactly the condition under which
    /// adding `p` rejects it.
    pub open spec fn spec_retains_similar_for_key(
        &self,
        key: PathKey,
        p: crate::partial::PartialPathView,
    ) -> bool {
        exists|i: int, j: int|
            #![trigger self.buckets@[i].1@[j]]
            0 <= i < self.buckets@.len() && self.buckets@[i].0 == key && 0 <= j
                < self.buckets@[i].1@.len() && (crate::partial::spec_path_equals(
                p,
                self.buckets@[i].1@[j]@,
            ) || spec_shadows(self.buckets@[i].1@[j]@, p))
    }

    /// True when some retained path has exactly the value `p`.
    pub open spec fn spec_retains_exact(&self, p: crate::partial::PartialPathView) -> bool {
        exists|i: int, j: int|
            #![trigger self.buckets@[i].1@[j]]
            0 <= i < self.buckets@.len() && 0 <= j < self.buckets@[i].1@.len()
                && self.buckets@[i].1@[j]@ == p
    }

    /// True when some retained path is equal to `p`.
    pub open spec fn spec_retains(&self, p: crate::partial::PartialPathView) -> bool {
        exists|i: int, j: int|
            #![trigger self.buckets@[i].1@[j]]
            0 <= i < self.buckets@.len() && 0 <= j < self.buckets@[i].1@.len()
                && crate::partial::spec_path_equals(p, self.buckets@[i].1@[j]@)
    }

    /// Adds a path. Returns true when the path is similar to (equal to or
    /// shadowed by) a retained path and should not be processed further;
    /// returns false when the path is new or better and was retained. A
    /// retained path shadowed by the new path is evicted.
    #[verifier::rlimit(60)]
    pub fn add_path(&mut self, path: &PartialPath) -> (r: bool)
        requires
            old(self).wf(),
        ensures
            final(self).wf(),
            r == old(self).spec_retains_similar_for_key(path.spec_key(), path@),
            r ==> final(self).spec_retains_similar(path@),
            !r ==> final(self).spec_retains(path@),
            final(self).buckets@.len() == old(self).buckets@.len() || final(self).buckets@.len()
                == old(self).buckets@.len() + 1,
            forall|i: int|
                0 <= i < old(self).buckets@.len() ==> (#[trigger] final(self).buckets@[i]).0
                    == old(self).buckets@[i].0,
            forall|i: int|
                0 <= i < old(self).buckets@.len() && (#[trigger] old(self).buckets@[i]).0
                    != path.spec_key() ==> final(self).buckets@[i] == old(self).buckets@[i],
            final(self).buckets@.len() == old(self).buckets@.len() + 1
                ==> final(self).buckets@[old(self).buckets@.len() as int].0 == path.spec_key(),
            forall|i: int|
                0 <= i < old(self).buckets@.len() && (#[trigger] old(self).buckets@[i]).0
                    == path.spec_key() ==> {
                    &&& forall|j: int|
                        0 <= j < old(self).buckets@[i].1@.len() ==> spec_member(
                            final(self).buckets@[i].1@,
                            #[trigger] old(self).buckets@[i].1@[j],
                        ) || spec_shadows(path@, old(self).buckets@[i].1@[j]@)
                    &&& forall|j: int|
                        0 <= j < final(self).buckets@[i].1@.len() ==> spec_member(
                            old(self).buckets@[i].1@,
                            #[trigger] final(self).buckets@[i].1@[j],
                        ) || final(self).buckets@[i].1@[j]@ == path@
                },
            final(self).buckets@.len() == old(self).buckets@.len() + 1 ==> {
                &&& final(self).buckets@[old(self).buckets@.len() as int].1@.len() == 1
                &&& final(self).buckets@[old(self).buckets@.len() as int].1@[0]@ == path@
            },
            r ==> final(self).buckets@.len() == old(self).buckets@.len(),
            r ==> forall|i: int, jx: int|
                0 <= i < final(self).buckets@.len() && 0 <= jx < final(self).buckets@[i].1@.len()
                    ==> spec_member(
                    old(self).buckets@[i].1@,
                    #[trigger] final(self).buckets@[i].1@[jx],
                ),
    {
        let key = path.key();
        let n = self.buckets.len();
        let mut which: Option<usize> = None;
        for i in 0..n
            invariant
                *self == *old(self),
                n == self.buckets@.len(),
                which is Some ==> which->Some_0 < n && self.buckets@[which->Some_0 as int].0
                    == key,
                which is None ==> forall|j: int|
                    0 <= j < i ==> (#[trigger] self.buckets@[j]).0 != key,
        {
            if which.is_none() {
                let bk = self.buckets[i].0;
                if bk == key {
                    which = Some(i);
                }
            }
        }
        let bi: usize = match which {
            Some(i) => i,
            None => {
                let empty_bucket: Vec<PartialPath> = Vec::new();
                self.buckets.push((key, empty_bucket));
                proof {
                    assert forall|i: int|
                        0 <= i < self.buckets@.len() implies spec_bucket_wf(
                        (#[trigger] self.buckets@[i]).1@,
                    ) by {
                        if i < old(self).buckets@.len() {
                            assert(spec_bucket_wf(old(self).buckets@[i].1@));
                        }
                    }
                    assert forall|i: int, j: int|
                        0 <= i < j < self.buckets@.len() implies (#[trigger] self.buckets@[i]).0
                        != (#[trigger] self.buckets@[j]).0 by {
                        if j < old(self).buckets@.len() {
                            assert(old(self).buckets@[i].0 != old(self).buckets@[j].0);
                        } else {
                            assert(self.buckets@[j].0 == key);
                        }
                    }
                    assert forall|i: int, j: int|
                        0 <= i < self.buckets@.len() && 0 <= j < self.buckets@[i].1@.len() implies (
                    #[trigger] self.buckets@[i].1@[j]).spec_key() == self.buckets@[i].0 by {
                        if i < old(self).buckets@.len() {
                            assert(old(self).buckets@[i].1@[j].spec_key()
                                == old(self).buckets@[i].0);
                        }
                    }
                }
                self.buckets.len() - 1
            },
        };
        let ghost pre_scan = *self;
        let ghost orig = self.buckets@[bi as int].1@;
        proof {
            assert forall|j: int| 0 <= j < self.buckets@[bi as int].1@.len() implies spec_member(
                orig,
                #[trigger] self.buckets@[bi as int].1@[j],
            ) by {
                assert(orig[j] == self.buckets@[bi as int].1@[j]);
            }
            assert forall|j0: int| 0 <= j0 < orig.len() implies spec_member(
                self.buckets@[bi as int].1@,
                #[trigger] orig[j0],
            ) || spec_shadows(path@, orig[j0]@) by {
                assert(self.buckets@[bi as int].1@[j0] == orig[j0]);
            }
        }
        let mut idx: usize = 0;
        let mut rejected = false;
        let mut evicted_count: usize = 0;
        loop
            invariant_except_break
                self.wf(),
                bi < self.buckets@.len(),
                self.buckets@.len() == pre_scan.buckets@.len(),
                self.buckets@[bi as int].0 == key,
                forall|i: int|
                    0 <= i < self.buckets@.len() && i != bi ==> #[trigger] self.buckets@[i]
                        == pre_scan.buckets@[i],
                idx <= self.buckets@[bi as int].1@.len(),
                !rejected,
                forall|j: int|
                    0 <= j < idx ==> !spec_shadows(
                        (#[trigger] self.buckets@[bi as int].1@[j])@,
                        path@,
                    ) && !spec_shadows(path@, (#[trigger] self.buckets@[bi as int].1@[j])@)
                        && !crate::partial::spec_path_equals(
                        path@,
                        self.buckets@[bi as int].1@[j]@,
                    ),
                forall|j: int|
                    0 <= j < self.buckets@[bi as int].1@.len() ==> spec_member(
                        orig,
                        #[trigger] self.buckets@[bi as int].1@[j],
                    ),
                forall|j0: int|
                    0 <= j0 < orig.len() ==> spec_member(
                        self.buckets@[bi as int].1@,
                        #[trigger] orig[j0],
                    ) || spec_shadows(path@, orig[j0]@),
            ensures
                self.wf(),
                bi < self.buckets@.len(),
                self.buckets@.len() == pre_scan.buckets@.len(),
                self.buckets@[bi as int].0 == key,
                forall|i: int|
                    0 <= i < self.buckets@.len() && i != bi ==> #[trigger] self.buckets@[i]
                        == pre_scan.buckets@[i],
                rejected || forall|j: int|
                    0 <= j < self.buckets@[bi as int].1@.len() ==> !spec_shadows(
                        (#[trigger] self.buckets@[bi as int].1@[j])@,
                        path@,
                    ) && !spec_shadows(path@, (#[trigger] self.buckets@[bi as int].1@[j])@)
                        && !crate::partial::spec_path_equals(
                        path@,
                        self.buckets@[bi as int].1@[j]@,
                    ),
                rejected ==> idx < self.buckets@[bi as int].1@.len() && (
                crate::partial::spec_path_equals(path@, self.buckets@[bi as int].1@[idx as int]@)
                    || spec_shadows(self.buckets@[bi as int].1@[idx as int]@, path@)),
                forall|j: int|
                    0 <= j < self.buckets@[bi as int].1@.len() ==> spec_member(
                        orig,
                        #[trigger] self.buckets@[bi as int].1@[j],
                    ),
                forall|j0: int|
                    0 <= j0 < orig.len() ==> spec_member(
                        self.buckets@[bi as int].1@,
                        #[trigger] orig[j0],
                    ) || spec_shadows(path@, orig[j0]@),
            decreases self.buckets@[bi as int].1@.len() - idx,
        {
            let ghost iter_start = *self;
            let blen = self.buckets[bi].1.len();
            if idx >= blen {
                break ;
            }
            let is_equal = path.equals(&self.buckets[bi].1[idx]);
            let new_shadows_old = path.shadows(&self.buckets[bi].1[idx]);
            let old_shadows_new = self.buckets[bi].1[idx].shadows(path);
            if new_shadows_old {
                // the new path is better: evict the retained path
                let ghost before = self.buckets@[bi as int].1@;
                let bucket = &mut self.buckets[bi].1;
                bucket.remove(idx);
                proof {
                    let after = self.buckets@[bi as int].1@;
                    assert(after =~= before.remove(idx as int));
                    assert forall|a: int, b: int|
                        0 <= a < after.len() && 0 <= b < after.len() && a != b implies !spec_shadows(
                        (#[trigger] after[a])@,
                        (#[trigger] after[b])@,
                    ) by {
                        let a0 = if a < idx as int { a } else { a + 1 };
                        let b0 = if b < idx as int { b } else { b + 1 };
                        assert(after[a] == before[a0]);
                        assert(after[b] == before[b0]);
                        assert(!spec_shadows(before[a0]@, before[b0]@));
                    }
                    assert forall|i: int|
                        0 <= i < self.buckets@.len() implies spec_bucket_wf(
                        (#[trigger] self.buckets@[i]).1@,
                    ) by {
                        if i != bi as int {
                            assert(self.buckets@[i] == iter_start.buckets@[i]);
                            assert(spec_bucket_wf(iter_start.buckets@[i].1@));
                        }
                    }
                    assert forall|i: int, jj: int|
                        0 <= i < self.buckets@.len() && 0 <= jj < self.buckets@[i].1@.len() implies (
                    #[trigger] self.buckets@[i].1@[jj]).spec_key() == self.buckets@[i].0 by {
                        if i != bi as int {
                            assert(self.buckets@[i] == iter_start.buckets@[i]);
                            assert(iter_start.buckets@[i].1@[jj].spec_key()
                                == iter_start.buckets@[i].0);
                        } else {
                            let b0 = if jj < idx as int { jj } else { jj + 1 };
                            assert(self.buckets@[i].1@[jj] == before[b0]);
                            assert(iter_start.buckets@[bi as int].1@[b0].spec_key()
                                == iter_start.buckets@[bi as int].0);
                        }
                    }
                    assert forall|j: int|
                        0 <= j < idx implies !spec_shadows(
                        (#[trigger] self.buckets@[bi as int].1@[j])@,
                        path@,
                    ) && !spec_shadows(path@, (#[trigger] self.buckets@[bi as int].1@[j])@)
                        && !crate::partial::spec_path_equals(
                        path@,
                        self.buckets@[bi as int].1@[j]@,
                    ) by {
                        assert(self.buckets@[bi as int].1@[j] == before[j]);
                    }
                    assert forall|j: int|
                        0 <= j < after.len() implies spec_member(orig, #[trigger] after[j]) by {
                        let b0 = if j < idx as int { j } else { j + 1 };
                        assert(after[j] == before[b0]);
                        assert(spec_member(orig, before[b0]));
                        let w = choose|j0: int| 0 <= j0 < orig.len() && #[trigger] orig[j0] == before[b0];
                        assert(orig[w] == after[j]);
                    }
                    assert forall|j0: int|
                        0 <= j0 < orig.len() implies spec_member(after, #[trigger] orig[j0])
                        || spec_shadows(path@, orig[j0]@) by {
                        if spec_member(before, orig[j0]) {
                            let jb = choose|j: int|
                                0 <= j < before.len() && #[trigger] before[j] == orig[j0];
                            if jb == idx as int {
                                assert(spec_shadows(path@, before[idx as int]@));
                            } else {
                                let ja = if jb < idx as int {
                                    jb
                                } else {
                                    jb - 1
                                };
                                assert(after[ja] == before[jb]);
                            }
                        }
                    }
                }
                match &mut self.counts {
                    Some(cs) => {
                        let taken = counts_take(cs, key, idx);
                        evicted_count = if evicted_count >= usize::MAX - taken {
                            usize::MAX
                        } else {
                            evicted_count + taken
                        };
                    },
                    None => {},
                }
            } else if is_equal || old_shadows_new {
                // the new path is equal or worse: reject it
                match &mut self.counts {
                    Some(cs) => counts_increment(cs, key, idx),
                    None => {},
                }
                rejected = true;
                break ;
            } else {
                idx += 1;
            }
        }
        if rejected {
            proof {
                let cur = self.buckets@[bi as int].1@;
                assert(crate::partial::spec_path_equals(path@, cur[idx as int]@) || spec_shadows(
                    cur[idx as int]@,
                    path@,
                ));
                // the rejecting path is one of the paths retained on entry
                assert(spec_member(orig, cur[idx as int]));
                let w = choose|j0: int| 0 <= j0 < orig.len() && #[trigger] orig[j0] == cur[idx as int];
                assert(orig[w] == cur[idx as int]);
                if which is Some {
                    let bi0 = which->Some_0 as int;
                    assert(old(self).buckets@[bi0].1@ == orig);
                    assert(old(self).buckets@[bi0].1@[w] == orig[w]);
                    assert(old(self).spec_retains_similar_for_key(key, path@));
                } else {
                    assert(orig.len() == 0);
                    assert(false);
                }
                assert forall|i: int|
                    0 <= i < old(self).buckets@.len() && (#[trigger] old(self).buckets@[i]).0
                        == key implies i == bi as int by {
                    if i < bi as int {
                        assert(old(self).buckets@[i].0 != old(self).buckets@[bi as int].0);
                    } else if i > bi as int {
                        assert(old(self).buckets@[bi as int].0 != old(self).buckets@[i].0);
                    }
                }
                assert forall|i: int, jx: int|
                    0 <= i < self.buckets@.len() && 0 <= jx < self.buckets@[i].1@.len()
                        implies spec_member(
                    old(self).buckets@[i].1@,
                    #[trigger] self.buckets@[i].1@[jx],
                ) by {
                    if i == bi as int {
                        assert(spec_member(orig, self.buckets@[bi as int].1@[jx]));
                        assert(old(self).buckets@[bi as int].1@ == orig);
                    } else {
                        assert(self.buckets@[i] == pre_scan.buckets@[i]);
                        assert(pre_scan.buckets@[i] == old(self).buckets@[i]);
                        assert(self.buckets@[i].1@[jx] == old(self).buckets@[i].1@[jx]);
                        assert(spec_member(old(self).buckets@[i].1@, self.buckets@[i].1@[jx]));
                    }
                }
            }
            return true;
        }
        proof {
            // nothing retained on entry equals the path or shadows it
            assert forall|j0: int| 0 <= j0 < orig.len() implies !crate::partial::spec_path_equals(
                path@,
                (#[trigger] orig[j0])@,
            ) && !spec_shadows(orig[j0]@, path@) by {
                if spec_member(self.buckets@[bi as int].1@, orig[j0]) {
                    let j = choose|j: int|
                        0 <= j < self.buckets@[bi as int].1@.len()
                            && #[trigger] self.buckets@[bi as int].1@[j] == orig[j0];
                    assert(!spec_shadows(self.buckets@[bi as int].1@[j]@, path@));
                    assert(!crate::partial::spec_path_equals(
                        path@,
                        self.buckets@[bi as int].1@[j]@,
                    ));
                } else {
                    assert(spec_shadows(path@, orig[j0]@));
                    crate::partial::lemma_shadows_asymmetric(path@, orig[j0]@);
                    if crate::partial::spec_path_equals(path@, orig[j0]@) {
                        crate::partial::lemma_equals_no_shadows(path@, orig[j0]@);
                    }
                }
            }
            assert(!old(self).spec_retains_similar_for_key(key, path@)) by {
                if old(self).spec_retains_similar_for_key(key, path@) {
                    let (i0, j0): (int, int) = choose|i0: int, j0: int|
                        #![trigger old(self).buckets@[i0].1@[j0]]
                        0 <= i0 < old(self).buckets@.len() && old(self).buckets@[i0].0 == key && 0
                            <= j0 < old(self).buckets@[i0].1@.len() && (
                        crate::partial::spec_path_equals(path@, old(self).buckets@[i0].1@[j0]@)
                            || spec_shadows(old(self).buckets@[i0].1@[j0]@, path@));
                    if which is Some {
                        let bi0 = which->Some_0 as int;
                        assert(i0 == bi0) by {
                            if i0 < bi0 {
                                assert(old(self).buckets@[i0].0 != old(self).buckets@[bi0].0);
                            } else if i0 > bi0 {
                                assert(old(self).buckets@[bi0].0 != old(self).buckets@[i0].0);
                            }
                        }
                        assert(old(self).buckets@[i0].1@ == orig);
                        assert(orig[j0] == old(self).buckets@[i0].1@[j0]);
                    } else {
                        assert(old(self).buckets@[i0].0 != key);
                    }
                }
            }
        }
        // the path is new or better than everything it displaced: keep it
        let ghost post_loop = *self;
        let ghost before = self.buckets@[bi as int].1@;
        let cloned = path.clone();
        let bucket = &mut self.buckets[bi].1;
        bucket.push(cloned);
        proof {
            let after = self.buckets@[bi as int].1@;
            assert(after.len() == before.len() + 1);
            assert(forall|a: int| 0 <= a < before.len() ==> after[a] == #[trigger] before[a]);
            assert(after[before.len() as int]@ == path@);
            assert forall|a: int, b: int|
                0 <= a < after.len() && 0 <= b < after.len() && a != b implies !spec_shadows(
                (#[trigger] after[a])@,
                (#[trigger] after[b])@,
            ) by {
                if a < before.len() && b < before.len() {
                    assert(!spec_shadows(before[a]@, before[b]@));
                } else if a == before.len() {
                    assert(after[a]@ == path@);
                    assert(!spec_shadows(path@, before[b]@));
                } else {
                    assert(after[b]@ == path@);
                    assert(!spec_shadows(before[a]@, path@));
                }
            }
            assert forall|i: int|
                0 <= i < self.buckets@.len() implies spec_bucket_wf(
                (#[trigger] self.buckets@[i]).1@,
            ) by {
                if i != bi as int {
                    assert(self.buckets@[i] == post_loop.buckets@[i]);
                    assert(spec_bucket_wf(post_loop.buckets@[i].1@));
                }
            }
            assert forall|i: int, jj: int|
                0 <= i < self.buckets@.len() && 0 <= jj < self.buckets@[i].1@.len() implies (
            #[trigger] self.buckets@[i].1@[jj]).spec_key() == self.buckets@[i].0 by {
                if i != bi as int {
                    assert(self.buckets@[i] == post_loop.buckets@[i]);
                    assert(post_loop.buckets@[i].1@[jj].spec_key() == post_loop.buckets@[i].0);
                } else {
                    if jj < before.len() {
                        assert(self.buckets@[i].1@[jj] == before[jj]);
                        assert(post_loop.buckets@[bi as int].1@[jj].spec_key()
                            == post_loop.buckets@[bi as int].0);
                    } else {
                        assert(self.buckets@[i].1@[jj]@ == path@);
                    }
                }
            }
        }
        match &mut self.counts {
            Some(cs) => counts_push(cs, key, evicted_count),
            None => {},
        }
        proof {
            let j = self.buckets@[bi as int].1@.len() - 1;
            assert(self.buckets@[bi as int].1@[j]@ == path@);
            lemma_path_equals_reflexive(path@);
            let after = self.buckets@[bi as int].1@;
            assert forall|j0: int|
                0 <= j0 < orig.len() implies spec_member(after, #[trigger] orig[j0])
                || spec_shadows(path@, orig[j0]@) by {
                if spec_member(before, orig[j0]) {
                    let jb = choose|x: int| 0 <= x < before.len() && #[trigger] before[x] == orig[j0];
                    assert(after[jb] == before[jb]);
                }
            }
            assert forall|jx: int|
                0 <= jx < after.len() implies spec_member(orig, #[trigger] after[jx])
                || after[jx]@ == path@ by {
                if jx < before.len() {
                    assert(after[jx] == before[jx]);
                    assert(spec_member(orig, before[jx]));
                } else {
                    assert(after[jx]@ == path@);
                }
            }
            assert forall|i: int|
                0 <= i < old(self).buckets@.len() && (#[trigger] old(self).buckets@[i]).0
                    == key implies i == bi as int by {
                if which is Some {
                    let bi0 = which->Some_0 as int;
                    if i < bi0 {
                        assert(old(self).buckets@[i].0 != old(self).buckets@[bi0].0);
                    } else if i > bi0 {
                        assert(old(self).buckets@[bi0].0 != old(self).buckets@[i].0);
                    }
                } else {
                    assert(old(self).buckets@[i].0 != key);
                }
            }
            if which is None {
                assert(orig.len() == 0);
                assert(before.len() == 0) by {
                    if before.len() > 0 {
                        assert(spec_member(orig, before[0]));
                    }
                }
                assert(self.buckets@[bi as int].1@.len() == 1);
                assert(self.buckets@[bi as int].1@[0]@ == path@);
            }
        }
        false
    }

    /// The distribution of similar-path counts and bucket sizes gathered
    /// since statistics collection was switched on: the bucket-size
    /// distribution records each tracked key's number of retained slots,
    /// so its count of `L` is the number of keys with `L` slots; the
    /// count distribution records every retained slot's similar-path
    /// count. Both distributions are empty when collection is off.
    pub fn stats(&self) -> (r: SimilarPathStats)
        ensures
            r.similar_path_count.wf(),
            r.similar_path_bucket_size.wf(),
            self.counts is None ==> r.similar_path_bucket_size.total == 0
                && r.similar_path_count.total == 0 && r.similar_path_bucket_size.values@.len()
                == 0 && r.similar_path_count.values@.len() == 0,
            self.counts is Some ==> {
                let cs = self.counts->Some_0@;
                &&& r.similar_path_bucket_size.total == cs.len()
                &&& forall|len_val: usize|
                    #[trigger] r.similar_path_bucket_size.spec_count_of(len_val)
                        == spec_keys_with_len(cs, len_val, cs.len() as int)
                &&& spec_slot_total(cs, cs.len() as int) <= usize::MAX
                    ==> r.similar_path_count.total == spec_slot_total(cs, cs.len() as int)
                &&& spec_slot_total(cs, cs.len() as int) <= usize::MAX ==> forall|c: usize|
                    #[trigger] r.similar_path_count.spec_count_of(c) == spec_slots_with_value(
                        cs,
                        c,
                        cs.len() as int,
                    )
            },
    {
        let mut result = SimilarPathStats::new();
        match &self.counts {
            Some(cs) => {
                let n = cs.len();
                for i in 0..n
                    invariant
                        n == cs@.len(),
                        result.similar_path_count.wf(),
                        result.similar_path_bucket_size.wf(),
                        result.similar_path_bucket_size.total == i,
                        forall|lv: usize|
                            #[trigger] result.similar_path_bucket_size.spec_count_of(lv)
                                == spec_keys_with_len(cs@, lv, i as int),
                        spec_slot_total(cs@, n as int) <= usize::MAX
                            ==> result.similar_path_count.total == spec_slot_total(cs@, i as int),
                        spec_slot_total(cs@, n as int) <= usize::MAX ==> forall|c: usize|
                            #[trigger] result.similar_path_count.spec_count_of(c)
                                == spec_slots_with_value(cs@, c, i as int),
                        result.similar_path_count.total <= spec_slot_total(cs@, i as int),
                {
                    proof {
                        lemma_slot_total_monotone(cs@, i as int, n as int);
                        lemma_slot_total_nonneg(cs@, i as int);
                    }
                    let ghost sizes_before = result.similar_path_bucket_size;
                    result.similar_path_bucket_size.record(cs[i].1.len());
                    proof {
                        assert forall|lv: usize|
                            #[trigger] result.similar_path_bucket_size.spec_count_of(lv)
                                == spec_keys_with_len(cs@, lv, i + 1) by {
                            if lv == cs@[i as int].1@.len() {
                                assert(result.similar_path_bucket_size.spec_count_of(lv)
                                    == sizes_before.spec_count_of(lv) + 1);
                            } else {
                                assert(result.similar_path_bucket_size.spec_count_of(lv)
                                    == sizes_before.spec_count_of(lv));
                            }
                        }
                    }
                    let m = cs[i].1.len();
                    for j in 0..m
                        invariant
                            n == cs@.len(),
                            i < n,
                            m == cs@[i as int].1@.len(),
                            result.similar_path_count.wf(),
                            result.similar_path_bucket_size.wf(),
                            result.similar_path_bucket_size.total == i + 1,
                            forall|lv: usize|
                                #[trigger] result.similar_path_bucket_size.spec_count_of(lv)
                                    == spec_keys_with_len(cs@, lv, i + 1),
                            spec_slot_total(cs@, n as int) <= usize::MAX
                                ==> result.similar_path_count.total == spec_slot_total(
                                cs@,
                                i as int,
                            ) + j,
                            spec_slot_total(cs@, n as int) <= usize::MAX ==> forall|c: usize|
                                #[trigger] result.similar_path_count.spec_count_of(c)
                                    == spec_slots_with_value(cs@, c, i as int) + spec_row_count(
                                    cs@[i as int].1@,
                                    c,
                                    j as int,
                                ),
                            result.similar_path_count.total <= spec_slot_total(cs@, i as int) + j,
                    {
                        proof {
                            lemma_slot_total_monotone(cs@, i + 1, n as int);
                            lemma_slot_total_nonneg(cs@, i as int);
                            assert(spec_slot_total(cs@, i + 1) == spec_slot_total(cs@, i as int)
                                + cs@[i as int].1@.len());
                        }
                        let ghost counts_before = result.similar_path_count;
                        if result.similar_path_count.total < usize::MAX {
                            result.similar_path_count.record(cs[i].1[j]);
                        }
                        proof {
                            if spec_slot_total(cs@, n as int) <= usize::MAX {
                                assert forall|c: usize|
                                    #[trigger] result.similar_path_count.spec_count_of(c)
                                        == spec_slots_with_value(cs@, c, i as int)
                                        + spec_row_count(cs@[i as int].1@, c, j + 1) by {
                                    if c == cs@[i as int].1@[j as int] {
                                        assert(result.similar_path_count.spec_count_of(c)
                                            == counts_before.spec_count_of(c) + 1);
                                    } else {
                                        assert(result.similar_path_count.spec_count_of(c)
                                            == counts_before.spec_count_of(c));
                                    }
                                }
                            }
                        }
                    }
                    proof {
                        assert(spec_slot_total(cs@, i + 1) == spec_slot_total(cs@, i as int)
                            + cs@[i as int].1@.len());
                    }
                }
            },
            None => {},
        }
        result
    }

    /// The size of the largest similarity bucket; zero when no paths have
    /// been added.
    pub fn max_bucket_size(&self) -> (r: usize)
        ensures
            forall|i: int| 0 <= i < self.buckets@.len() ==> (#[trigger] self.buckets@[i]).1@.len() <= r,
            self.buckets@.len() == 0 ==> r == 0,
            self.buckets@.len() > 0 ==> exists|i: int|
                0 <= i < self.buckets@.len() && (#[trigger] self.buckets@[i]).1@.len() == r,
    {
        let mut max: usize = 0;
        let n = self.buckets.len();
        let mut hit = false;
        for i in 0..n
            invariant
                n == self.buckets@.len(),
                forall|j: int| 0 <= j < i ==> (#[trigger] self.buckets@[j]).1@.len() <= max,
                !hit ==> max == 0,
                i > 0 ==> hit,
                hit ==> exists|j: int|
                    0 <= j < i && (#[trigger] self.buckets@[j]).1@.len() == max,
        {
            let len = self.buckets[i].1.len();
            if len > max || !hit {
                max = len;
                hit = true;
                proof {
                    assert(self.buckets@[i as int].1@.len() == max);
                }
            }
        }
        max
    }
}

/// A set of [`Cyclicity`] classifications, one flag per variant.
#[derive(Clone, Copy, Debug, PartialEq, Eq, Structural)]
pub struct CyclicitySet {
    pub free: bool,
    pub strengthens_postcondition: bool,
    pub loops_at_end: bool,
}

impl CyclicitySet {
    /// The empty set.
    pub fn new() -> (r: CyclicitySet)
        ensures
            r == (CyclicitySet { free: false, strengthens_postcondition: false, loops_at_end: false }),
    {
        CyclicitySet { free: false, strengthens_postcondition: false, loops_at_end: false }
    }

    pub fn insert(&mut self, c: Cyclicity)
        ensures
            final(self).free == (old(self).free || c is Free),
            final(self).strengthens_postcondition == (old(self).strengthens_postcondition
                || c is StrengthensPostcondition),
            final(self).loops_at_end == (old(self).loops_at_end || c is LoopsAtEnd),
    {
        match c {
            Cyclicity::Free => {
                self.free = true;
            },
            Cyclicity::StrengthensPostcondition => {
                self.strengthens_postcondition = true;
            },
            Cyclicity::LoopsAtEnd => {
                self.loops_at_end = true;
            },
        }
    }

    pub fn contains(&self, c: Cyclicity) -> (r: bool)
        ensures
            r == match c {
                Cyclicity::Free => self.free,
                Cyclicity::StrengthensPostcondition => self.strengthens_postcondition,
                Cyclicity::LoopsAtEnd => self.loops_at_end,
            },
    {
        match c {
            Cyclicity::Free => self.free,
            Cyclicity::StrengthensPostcondition => self.strengthens_postcondition,
            Cyclicity::LoopsAtEnd => self.loops_at_end,
        }
    }

    pub fn is_empty(&self) -> (r: bool)
        ensures
            r == (!self.free && !self.strengthens_postcondition && !self.loops_at_end),
    {
        !self.free && !self.strengthens_postcondition && !self.loops_at_end
    }
}

/// The arena shared by all appending cycle detectors of one stitching
/// run: it interns the initial partial path of each detector, so that the
/// detectors themselves stay small.
pub struct Appendables {
    pub interned: Vec<PartialPath>,
}

impl Appendables {
    /// Every interned partial path is well-formed with respect to `g`.
    pub open spec fn wf(&self, g: StackGraph) -> bool {
        forall|i: int|
            0 <= i < self.interned@.len() ==> spec_path_wf(g, (#[trigger] self.interned@[i])@)
    }

    pub fn new() -> (r: Appendables)
        ensures
            r.interned@.len() == 0,
    {
        Appendables { interned: Vec::new() }
    }
}

/// One element of a cycle detector's history: either a partial path
/// interned in the shared [`Appendables`] arena (the detector's initial
/// path), or an appendable that was appended during stitching.
#[derive(Clone, Copy, Debug)]
pub enum InternedOrHandle {
    Interned(usize),
    Database(Appendable),
}

/// The element resolves in the graph, the database and the arena.
pub open spec fn spec_ioh_wf(
    x: InternedOrHandle,
    g: StackGraph,
    db: Database,
    app: Appendables,
) -> bool {
    match x {
        InternedOrHandle::Interned(i) => i < app.interned@.len(),
        InternedOrHandle::Database(Appendable::Edge(e)) => e.source.index < g.nodes@.len()
            && e.sink.index < g.nodes@.len(),
        InternedOrHandle::Database(Appendable::DatabasePath(h)) => h.index < db.paths@.len(),
    }
}

/// The start node of the path fragment an element stands for.
pub open spec fn spec_ioh_start(
    x: InternedOrHandle,
    g: StackGraph,
    db: Database,
    app: Appendables,
) -> NodeHandle {
    match x {
        InternedOrHandle::Interned(i) => app.interned@[i as int]@.start_node,
        InternedOrHandle::Database(Appendable::Edge(e)) => e.source,
        InternedOrHandle::Database(Appendable::DatabasePath(h)) => db.paths@[h.index as int]@.start_node,
    }
}

/// The end node of the path fragment an element stands for.
pub open spec fn spec_ioh_end(
    x: InternedOrHandle,
    g: StackGraph,
    db: Database,
    app: Appendables,
) -> NodeHandle {
    match x {
        InternedOrHandle::Interned(i) => app.interned@[i as int]@.end_node,
        InternedOrHandle::Database(Appendable::Edge(e)) => e.sink,
        InternedOrHandle::Database(Appendable::DatabasePath(h)) => db.paths@[h.index as int]@.end_node,
    }
}

impl InternedOrHandle {
    /// Extends `path` by the fragment this element stands for: an
    /// interned or stored partial path is composed onto it; an edge is
    /// appended to it.
    pub fn append_to(
        &self,
        graph: &StackGraph,
        db: &Database,
        appendables: &Appendables,
        path: &mut PartialPath,
    ) -> (r: Result<(), crate::paths::PathResolutionError>)
        requires
            graph.wf(),
            db.wf(*graph),
            appendables.wf(*graph),
            spec_ioh_wf(*self, *graph, *db, *appendables),
            spec_path_wf(*graph, old(path)@),
        ensures
            r is Ok ==> Ok::<crate::partial::PartialPathView, crate::paths::PathResolutionError>(
                final(path)@,
            ) == spec_apply_fragment(*graph, *db, *appendables, old(path)@, *self),
            r is Ok ==> spec_path_wf(*graph, final(path)@),
            r is Err ==> *final(path) == *old(path) && Err::<
                crate::partial::PartialPathView,
                crate::paths::PathResolutionError,
            >(r->Err_0) == spec_apply_fragment(*graph, *db, *appendables, old(path)@, *self),
    {
        match self {
            InternedOrHandle::Interned(i) => appendables.interned[*i].append_to(graph, path),
            InternedOrHandle::Database(Appendable::Edge(e)) => path.append(graph, *e),
            InternedOrHandle::Database(Appendable::DatabasePath(h)) => db.get(*h).append_to(
                graph,
                path,
            ),
        }
    }

    /// The start node of the fragment this element stands for.
    pub fn start_node(&self, graph: &StackGraph, db: &Database, appendables: &Appendables) -> (r:
        NodeHandle)
        requires
            graph.wf(),
            db.wf(*graph),
            appendables.wf(*graph),
            spec_ioh_wf(*self, *graph, *db, *appendables),
        ensures
            r == spec_ioh_start(*self, *graph, *db, *appendables),
            r.index < graph.nodes@.len(),
    {
        match self {
            InternedOrHandle::Interned(i) => {
                proof {
                    assert(spec_path_wf(*graph, appendables.interned@[*i as int]@));
                }
                appendables.interned[*i].start_node
            },
            InternedOrHandle::Database(Appendable::Edge(e)) => e.source,
            InternedOrHandle::Database(Appendable::DatabasePath(h)) => {
                proof {
                    assert(spec_path_wf(*graph, db.paths@[h.index as int]@));
                }
                db.get(*h).start_node
            },
        }
    }

    /// The end node of the fragment this element stands for.
    pub fn end_node(&self, graph: &StackGraph, db: &Database, appendables: &Appendables) -> (r:
        NodeHandle)
        requires
            graph.wf(),
            db.wf(*graph),
            appendables.wf(*graph),
            spec_ioh_wf(*self, *graph, *db, *appendables),
        ensures
            r == spec_ioh_end(*self, *graph, *db, *appendables),
            r.index < graph.nodes@.len(),
    {
        match self {
            InternedOrHandle::Interned(i) => {
                proof {
                    assert(spec_path_wf(*graph, appendables.interned@[*i as int]@));
                }
                appendables.interned[*i].end_node
            },
            InternedOrHandle::Database(Appendable::Edge(e)) => e.sink,
            InternedOrHandle::Database(Appendable::DatabasePath(h)) => {
                proof {
                    assert(spec_path_wf(*graph, db.paths@[h.index as int]@));
                }
                db.get(*h).end_node
            },
        }
    }
}


/// The effect of one history element on a path under construction: an
/// interned or stored partial path is composed onto it; an edge is
/// appended to it.
pub open spec fn spec_apply_fragment(
    g: StackGraph,
    db: Database,
    app: Appendables,
    p: crate::partial::PartialPathView,
    x: InternedOrHandle,
) -> Result<crate::partial::PartialPathView, crate::paths::PathResolutionError> {
    match x {
        InternedOrHandle::Interned(i) => crate::partial::spec_compose(p, app.interned@[i as int]@),
        InternedOrHandle::Database(Appendable::Edge(e)) => crate::partial::spec_append(g, p, e),
        InternedOrHandle::Database(Appendable::DatabasePath(h)) => crate::partial::spec_compose(
            p,
            db.paths@[h.index as int]@,
        ),
    }
}

/// The path obtained by applying the history elements `lo .. hi` in order
/// to `base`, or the first error doing so.
pub open spec fn spec_fold_fragments(
    g: StackGraph,
    db: Database,
    app: Appendables,
    hist: Seq<InternedOrHandle>,
    lo: int,
    hi: int,
    base: crate::partial::PartialPathView,
) -> Result<crate::partial::PartialPathView, crate::paths::PathResolutionError>
    decreases hi - lo,
{
    if lo >= hi {
        Ok(base)
    } else {
        match spec_apply_fragment(g, db, app, base, hist[lo]) {
            Ok(q) => spec_fold_fragments(g, db, app, hist, lo + 1, hi, q),
            Err(e) => Err(e),
        }
    }
}

/// The position of the nearest history element below `hi` whose fragment
/// starts at `end`, or `-1` when there is none: the start of the
/// shortest candidate cycle.
pub open spec fn spec_latest_cycle_start(
    g: StackGraph,
    db: Database,
    app: Appendables,
    hist: Seq<InternedOrHandle>,
    hi: int,
    end: NodeHandle,
) -> int
    decreases hi,
{
    if hi <= 0 {
        -1
    } else if spec_ioh_start(hist[hi - 1], g, db, app) == end {
        hi - 1
    } else {
        spec_latest_cycle_start(g, db, app, hist, hi - 1, end)
    }
}

/// Membership in a cyclicity set.
pub open spec fn spec_cyc_contains(s: CyclicitySet, c: Cyclicity) -> bool {
    match c {
        Cyclicity::Free => s.free,
        Cyclicity::StrengthensPostcondition => s.strengthens_postcondition,
        Cyclicity::LoopsAtEnd => s.loops_at_end,
    }
}

/// Inserting a classification into a cyclicity set.
pub open spec fn spec_cyc_insert(s: CyclicitySet, c: Cyclicity) -> CyclicitySet {
    CyclicitySet {
        free: s.free || c is Free,
        strengthens_postcondition: s.strengthens_postcondition || c is StrengthensPostcondition,
        loops_at_end: s.loops_at_end || c is LoopsAtEnd,
    }
}

/// The whole backward scan of a cycle detector's history: repeatedly find
/// the nearest element below `hi` whose fragment starts at `end`, fold
/// the elements from there up to `hi` into a path, compose the previously
/// accumulated path behind it, classify it if it took any edges, and
/// continue below. The `j >= hi` guard never fires — the nearest cycle
/// start always lies below `hi` — and only keeps the recursion visibly
/// well-founded.
pub open spec fn spec_scan_cycles(
    g: StackGraph,
    db: Database,
    app: Appendables,
    hist: Seq<InternedOrHandle>,
    hi: int,
    end: NodeHandle,
    acc: Option<crate::partial::PartialPathView>,
    acc_set: CyclicitySet,
) -> Result<CyclicitySet, crate::paths::PathResolutionError>
    decreases hi,
{
    let j = spec_latest_cycle_start(g, db, app, hist, hi, end);
    if j < 0 || j >= hi {
        Ok(acc_set)
    } else {
        match spec_fold_fragments(g, db, app, hist, j, hi, crate::partial::spec_from_node(end)) {
            Err(e) => Err(e),
            Ok(pr0) => {
                let composed = match acc {
                    None => Ok(pr0),
                    Some(cp) => crate::partial::spec_compose(pr0, cp),
                };
                match composed {
                    Err(e) => Err(e),
                    Ok(pr) => {
                        let next_set = if pr.edges.len() > 0 {
                            match crate::partial::spec_is_cyclic(pr) {
                                Some(c) => spec_cyc_insert(acc_set, c),
                                None => acc_set,
                            }
                        } else {
                            acc_set
                        };
                        spec_scan_cycles(g, db, app, hist, j, end, Some(pr), next_set)
                    },
                }
            },
        }
    }
}

proof fn lemma_latest_found(
    g: StackGraph,
    db: Database,
    app: Appendables,
    hist: Seq<InternedOrHandle>,
    hi: int,
    end: NodeHandle,
    j: int,
)
    requires
        0 <= j < hi <= hist.len(),
        spec_ioh_start(hist[j], g, db, app) == end,
        forall|x: int| j < x < hi ==> spec_ioh_start(#[trigger] hist[x], g, db, app) != end,
    ensures
        spec_latest_cycle_start(g, db, app, hist, hi, end) == j,
    decreases hi,
{
    if j < hi - 1 {
        lemma_latest_found(g, db, app, hist, hi - 1, end, j);
    }
}

proof fn lemma_latest_none(
    g: StackGraph,
    db: Database,
    app: Appendables,
    hist: Seq<InternedOrHandle>,
    hi: int,
    end: NodeHandle,
)
    requires
        0 <= hi <= hist.len(),
        forall|x: int| 0 <= x < hi ==> spec_ioh_start(#[trigger] hist[x], g, db, app) != end,
    ensures
        spec_latest_cycle_start(g, db, app, hist, hi, end) == -1,
    decreases hi,
{
    if hi > 0 {
        lemma_latest_none(g, db, app, hist, hi - 1, end);
    }
}

/// Peeling the last element off a fold.
proof fn lemma_fold_snoc(
    g: StackGraph,
    db: Database,
    app: Appendables,
    hist: Seq<InternedOrHandle>,
    lo: int,
    hi: int,
    base: crate::partial::PartialPathView,
)
    requires
        lo <= hi,
    ensures
        spec_fold_fragments(g, db, app, hist, lo, hi + 1, base) == (match spec_fold_fragments(
            g,
            db,
            app,
            hist,
            lo,
            hi,
            base,
        ) {
            Ok(q) => spec_apply_fragment(g, db, app, q, hist[hi]),
            Err(e) => Err(e),
        }),
    decreases hi - lo,
{
    if lo < hi {
        match spec_apply_fragment(g, db, app, base, hist[lo]) {
            Ok(q) => {
                lemma_fold_snoc(g, db, app, hist, lo + 1, hi, q);
            },
            Err(_) => {},
        }
    } else {
        match spec_apply_fragment(g, db, app, base, hist[lo]) {
            Ok(q) => {
                assert(spec_fold_fragments(g, db, app, hist, lo + 1, hi + 1, q)
                    == Ok::<crate::partial::PartialPathView, crate::paths::PathResolutionError>(q));
            },
            Err(_) => {},
        }
    }
}

/// A failed fold stays failed however far it is extended.
proof fn lemma_fold_err_stable(
    g: StackGraph,
    db: Database,
    app: Appendables,
    hist: Seq<InternedOrHandle>,
    lo: int,
    m: int,
    hi: int,
    base: crate::partial::PartialPathView,
)
    requires
        lo <= m <= hi,
        spec_fold_fragments(g, db, app, hist, lo, m, base) is Err,
    ensures
        spec_fold_fragments(g, db, app, hist, lo, hi, base) == spec_fold_fragments(
            g,
            db,
            app,
            hist,
            lo,
            m,
            base,
        ),
    decreases hi - m,
{
    if m < hi {
        lemma_fold_snoc(g, db, app, hist, lo, m, base);
        lemma_fold_err_stable(g, db, app, hist, lo, m + 1, hi, base);
    }
}

/// A cycle detector that records the appendables an in-flight path was
/// built from, so that an extension which closes a loop can be recognised
/// and classified.
#[derive(Debug)]
pub struct AppendingCycleDetector {
    pub appendages: Vec<InternedOrHandle>,
}

impl Clone for AppendingCycleDetector {
    fn clone(&self) -> (r: Self)
        ensures
            r.appendages@ == self.appendages@,
    {
        let mut appendages: Vec<InternedOrHandle> = Vec::new();
        let n = self.appendages.len();
        for i in 0..n
            invariant
                n == self.appendages@.len(),
                appendages@ == self.appendages@.take(i as int),
        {
            appendages.push(self.appendages[i]);
            proof {
                assert(self.appendages@.take(i + 1) =~= self.appendages@.take(i as int).push(
                    self.appendages@[i as int],
                ));
            }
        }
        proof {
            assert(self.appendages@.take(n as int) =~= self.appendages@);
        }
        AppendingCycleDetector { appendages }
    }
}

impl AppendingCycleDetector {
    /// Every recorded element resolves in the graph, the database and the
    /// arena.
    pub open spec fn wf(&self, g: StackGraph, db: Database, app: Appendables) -> bool {
        forall|i: int|
            0 <= i < self.appendages@.len() ==> spec_ioh_wf(
                #[trigger] self.appendages@[i],
                g,
                db,
                app,
            )
    }

    /// An empty detector.
    pub fn new() -> (r: AppendingCycleDetector)
        ensures
            r.appendages@.len() == 0,
    {
        AppendingCycleDetector { appendages: Vec::new() }
    }

    /// A detector whose history starts with `path`, interned into the
    /// shared arena.
    pub fn from(appendables: &mut Appendables, path: PartialPath) -> (r: AppendingCycleDetector)
        ensures
            final(appendables).interned@ == old(appendables).interned@.push(path),
            r.appendages@ == seq![
                InternedOrHandle::Interned(old(appendables).interned@.len() as usize),
            ],
    {
        let h = appendables.interned.len();
        appendables.interned.push(path);
        let mut result = AppendingCycleDetector::new();
        result.appendages.push(InternedOrHandle::Interned(h));
        proof {
            assert(result.appendages@ =~= seq![InternedOrHandle::Interned(h)]);
        }
        result
    }

    /// Records one appended appendable.
    pub fn append(&mut self, appendage: Appendable)
        ensures
            final(self).appendages@ == old(self).appendages@.push(
                InternedOrHandle::Database(appendage),
            ),
    {
        self.appendages.push(InternedOrHandle::Database(appendage));
    }

    /// Tests whether the recorded history closes one or more cycles at
    /// the current end node, and classifies each cycle found. Scanning
    /// backwards, every suffix of the history whose concatenation starts
    /// at the current end node is materialised as a partial path and
    /// classified; a suffix whose fragments fail to compose cannot be a
    /// real cycle and surfaces as the composition error. In particular,
    /// when no history element starts at the end node the result is the
    /// empty set; when one does, the nearest such suffix is folded into a
    /// path exactly as `spec_fold_fragments` describes, its failure is
    /// returned verbatim, and on success its classification is contained
    /// in any successful result.
    pub fn is_cyclic(
        &self,
        graph: &StackGraph,
        db: &Database,
        appendables: &Appendables,
    ) -> (r: Result<CyclicitySet, crate::paths::PathResolutionError>)
        requires
            graph.wf(),
            db.wf(*graph),
            appendables.wf(*graph),
            self.wf(*graph, *db, *appendables),
        ensures
            self.appendages@.len() == 0 ==> r == Ok::<
                CyclicitySet,
                crate::paths::PathResolutionError,
            >(
                CyclicitySet { free: false, strengthens_postcondition: false, loops_at_end: false },
            ),
            self.appendages@.len() > 0 ==> r == spec_scan_cycles(
                *graph,
                *db,
                *appendables,
                self.appendages@,
                self.appendages@.len() as int,
                spec_ioh_end(
                    self.appendages@[self.appendages@.len() - 1],
                    *graph,
                    *db,
                    *appendables,
                ),
                None,
                CyclicitySet { free: false, strengthens_postcondition: false, loops_at_end: false },
            ),
            self.appendages@.len() > 0 ==> ({
                let hist = self.appendages@;
                let end = spec_ioh_end(hist[hist.len() - 1], *graph, *db, *appendables);
                let j0 = spec_latest_cycle_start(
                    *graph,
                    *db,
                    *appendables,
                    hist,
                    hist.len() as int,
                    end,
                );
                &&& (j0 == -1 ==> r == Ok::<CyclicitySet, crate::paths::PathResolutionError>(
                    CyclicitySet {
                        free: false,
                        strengthens_postcondition: false,
                        loops_at_end: false,
                    },
                ))
                &&& (j0 >= 0 ==> match spec_fold_fragments(
                    *graph,
                    *db,
                    *appendables,
                    hist,
                    j0,
                    hist.len() as int,
                    crate::partial::spec_from_node(end),
                ) {
                    Err(e) => r == Err::<CyclicitySet, crate::paths::PathResolutionError>(e),
                    Ok(pr) => pr.edges.len() > 0 && crate::partial::spec_is_cyclic(pr) is Some && r
                        is Ok ==> spec_cyc_contains(
                        r->Ok_0,
                        crate::partial::spec_is_cyclic(pr)->Some_0,
                    ),
                })
            }),
    {
        let mut cycles = CyclicitySet::new();
        let len = self.appendages.len();
        if len == 0 {
            return Ok(cycles);
        }
        let ghost hist = self.appendages@;
        let end_node = self.appendages[len - 1].end_node(graph, db, appendables);
        let ghost j0 = spec_latest_cycle_start(
            *graph,
            *db,
            *appendables,
            hist,
            len as int,
            end_node,
        );
        let ghost first_fold = spec_fold_fragments(
            *graph,
            *db,
            *appendables,
            hist,
            j0,
            len as int,
            crate::partial::spec_from_node(end_node),
        );
        let mut maybe_cyclic: Option<PartialPath> = None;
        let mut hi = len;
        loop
            invariant_except_break
                graph.wf(),
                db.wf(*graph),
                appendables.wf(*graph),
                self.wf(*graph, *db, *appendables),
                hist == self.appendages@,
                len == self.appendages@.len(),
                len > 0,
                hi <= len,
                end_node == spec_ioh_end(hist[len - 1], *graph, *db, *appendables),
                end_node.index < graph.nodes@.len(),
                j0 == spec_latest_cycle_start(*graph, *db, *appendables, hist, len as int, end_node),
                first_fold == spec_fold_fragments(
                    *graph,
                    *db,
                    *appendables,
                    hist,
                    j0,
                    len as int,
                    crate::partial::spec_from_node(end_node),
                ),
                (hi == len) == (maybe_cyclic is None),
                hi == len ==> cycles == (CyclicitySet {
                    free: false,
                    strengthens_postcondition: false,
                    loops_at_end: false,
                }),
                spec_scan_cycles(
                    *graph,
                    *db,
                    *appendables,
                    hist,
                    len as int,
                    end_node,
                    None,
                    CyclicitySet {
                        free: false,
                        strengthens_postcondition: false,
                        loops_at_end: false,
                    },
                ) == spec_scan_cycles(
                    *graph,
                    *db,
                    *appendables,
                    hist,
                    hi as int,
                    end_node,
                    match maybe_cyclic {
                        Some(p) => Some(p@),
                        None => None,
                    },
                    cycles,
                ),
                hi < len ==> j0 >= 0 && first_fold is Ok && (first_fold->Ok_0.edges.len() > 0
                    && crate::partial::spec_is_cyclic(first_fold->Ok_0) is Some
                    ==> spec_cyc_contains(
                    cycles,
                    crate::partial::spec_is_cyclic(first_fold->Ok_0)->Some_0,
                )),
                match maybe_cyclic {
                    Some(p) => spec_path_wf(*graph, p@),
                    None => true,
                },
            ensures
                true,
            decreases hi,
        {
            let ghost acc_entry: Option<crate::partial::PartialPathView> = match &maybe_cyclic {
                Some(p) => Some(p@),
                None => None,
            };
            let ghost set_entry = cycles;
            // find the nearest element below `hi` whose fragment starts at
            // the current end node; the elements from there up to `hi`
            // form a candidate cycle
            let mut j = hi;
            let mut found = false;
            while j > 0 && !found
                invariant
                    graph.wf(),
                    db.wf(*graph),
                    appendables.wf(*graph),
                    self.wf(*graph, *db, *appendables),
                    hist == self.appendages@,
                    len == self.appendages@.len(),
                    j <= hi <= len,
                    !found ==> forall|x: int|
                        j <= x < hi ==> spec_ioh_start(
                            #[trigger] hist[x],
                            *graph,
                            *db,
                            *appendables,
                        ) != end_node,
                    found ==> j < hi && spec_ioh_start(hist[j as int], *graph, *db, *appendables)
                        == end_node && forall|x: int|
                        j < x < hi ==> spec_ioh_start(
                            #[trigger] hist[x],
                            *graph,
                            *db,
                            *appendables,
                        ) != end_node,
                decreases j, (if found { 0int } else { 1int }),
            {
                if self.appendages[j - 1].start_node(graph, db, appendables) == end_node {
                    found = true;
                }
                j -= 1;
            }
            if !found {
                proof {
                    lemma_latest_none(*graph, *db, *appendables, hist, hi as int, end_node);
                    if hi == len {
                        assert(j0 == -1);
                    }
                    assert(spec_scan_cycles(
                        *graph,
                        *db,
                        *appendables,
                        hist,
                        hi as int,
                        end_node,
                        acc_entry,
                        set_entry,
                    ) == Ok::<CyclicitySet, crate::paths::PathResolutionError>(cycles));
                }
                return Ok(cycles);
            }
            proof {
                lemma_latest_found(*graph, *db, *appendables, hist, hi as int, end_node, j as int);
                if hi == len {
                    assert(j as int == j0);
                }
            }
            // j now indexes the first element of the candidate cycle
            let mut prefix = PartialPath::from_node(graph, end_node);
            proof {
                assert(prefix@ == crate::partial::spec_from_node(end_node));
            }
            let mut k = j;
            while k < hi
                invariant
                    graph.wf(),
                    db.wf(*graph),
                    appendables.wf(*graph),
                    self.wf(*graph, *db, *appendables),
                    hist == self.appendages@,
                    len == self.appendages@.len(),
                    len > 0,
                    hi <= len,
                    end_node == spec_ioh_end(hist[len - 1], *graph, *db, *appendables),
                    end_node.index < graph.nodes@.len(),
                    j0 == spec_latest_cycle_start(
                        *graph,
                        *db,
                        *appendables,
                        hist,
                        len as int,
                        end_node,
                    ),
                    first_fold == spec_fold_fragments(
                        *graph,
                        *db,
                        *appendables,
                        hist,
                        j0,
                        len as int,
                        crate::partial::spec_from_node(end_node),
                    ),
                    hi == len ==> j as int == j0,
                    hi < len ==> j0 >= 0 && first_fold is Ok,
                    j as int == spec_latest_cycle_start(
                        *graph,
                        *db,
                        *appendables,
                        hist,
                        hi as int,
                        end_node,
                    ),
                    spec_scan_cycles(
                        *graph,
                        *db,
                        *appendables,
                        hist,
                        len as int,
                        end_node,
                        None,
                        CyclicitySet {
                            free: false,
                            strengthens_postcondition: false,
                            loops_at_end: false,
                        },
                    ) == spec_scan_cycles(
                        *graph,
                        *db,
                        *appendables,
                        hist,
                        hi as int,
                        end_node,
                        acc_entry,
                        set_entry,
                    ),
                    j <= k,
                    k <= hi <= len,
                    spec_path_wf(*graph, prefix@),
                    Ok::<crate::partial::PartialPathView, crate::paths::PathResolutionError>(
                        prefix@,
                    ) == spec_fold_fragments(
                        *graph,
                        *db,
                        *appendables,
                        hist,
                        j as int,
                        k as int,
                        crate::partial::spec_from_node(end_node),
                    ),
                decreases hi - k,
            {
                let ghost before = prefix@;
                match self.appendages[k].append_to(graph, db, appendables, &mut prefix) {
                    Ok(()) => {
                        proof {
                            lemma_fold_snoc(
                                *graph,
                                *db,
                                *appendables,
                                hist,
                                j as int,
                                k as int,
                                crate::partial::spec_from_node(end_node),
                            );
                        }
                    },
                    Err(e) => {
                        proof {
                            lemma_fold_snoc(
                                *graph,
                                *db,
                                *appendables,
                                hist,
                                j as int,
                                k as int,
                                crate::partial::spec_from_node(end_node),
                            );
                            lemma_fold_err_stable(
                                *graph,
                                *db,
                                *appendables,
                                hist,
                                j as int,
                                k + 1,
                                hi as int,
                                crate::partial::spec_from_node(end_node),
                            );
                            assert(spec_scan_cycles(
                                *graph,
                                *db,
                                *appendables,
                                hist,
                                hi as int,
                                end_node,
                                acc_entry,
                                set_entry,
                            ) == Err::<CyclicitySet, crate::paths::PathResolutionError>(e));
                        }
                        return Err(e);
                    },
                }
                k += 1;
            }
            let ghost pre_compose = prefix@;
            match maybe_cyclic {
                Some(cp) => {
                    match cp.append_to(graph, &mut prefix) {
                        Ok(()) => {},
                        Err(e) => {
                            proof {
                                assert(spec_scan_cycles(
                                    *graph,
                                    *db,
                                    *appendables,
                                    hist,
                                    hi as int,
                                    end_node,
                                    acc_entry,
                                    set_entry,
                                ) == Err::<CyclicitySet, crate::paths::PathResolutionError>(e));
                            }
                            return Err(e);
                        },
                    }
                },
                None => {},
            }
            let ghost cycles_before = cycles;
            if prefix.edges.len() > 0 {
                match prefix.is_cyclic() {
                    Some(c) => cycles.insert(c),
                    None => {},
                }
            }
            proof {
                if hi == len {
                    assert(first_fold == Ok::<
                        crate::partial::PartialPathView,
                        crate::paths::PathResolutionError,
                    >(pre_compose));
                } else {
                    if first_fold->Ok_0.edges.len() > 0 && crate::partial::spec_is_cyclic(
                        first_fold->Ok_0,
                    ) is Some {
                        assert(spec_cyc_contains(
                            cycles_before,
                            crate::partial::spec_is_cyclic(first_fold->Ok_0)->Some_0,
                        ));
                    }
                }
                if pre_compose.edges.len() > 0 && crate::partial::spec_is_cyclic(
                    pre_compose,
                ) is Some {
                }
                assert(spec_scan_cycles(
                    *graph,
                    *db,
                    *appendables,
                    hist,
                    hi as int,
                    end_node,
                    acc_entry,
                    set_entry,
                ) == spec_scan_cycles(
                    *graph,
                    *db,
                    *appendables,
                    hist,
                    j as int,
                    end_node,
                    Some(prefix@),
                    cycles,
                )) by {
                    if prefix@.edges.len() > 0 {
                        match crate::partial::spec_is_cyclic(prefix@) {
                            Some(c) => {
                                assert(cycles == spec_cyc_insert(set_entry, c));
                            },
                            None => {
                                assert(cycles == set_entry);
                            },
                        }
                    } else {
                        assert(cycles == set_entry);
                    }
                }
            }
            maybe_cyclic = Some(prefix);
            hi = j;
        }
    }
}


/// Equality of partial paths up to variable renaming is reflexive.
proof fn lemma_path_equals_reflexive(p: crate::partial::PartialPathView)
    ensures
        crate::partial::spec_path_equals(p, p),
{
}

/// The position of the counts bucket for `key`, if one exists.
fn counts_bucket_index(counts: &Vec<(PathKey, Vec<usize>)>, key: PathKey) -> (r: Option<usize>)
    ensures
        r is Some ==> r->Some_0 < counts@.len(),
{
    let n = counts.len();
    for i in 0..n
        invariant
            n == counts@.len(),
    {
        if counts[i].0 == key {
            return Some(i);
        }
    }
    None
}

/// Removes and returns the similar-path count at `idx` of `key`'s bucket.
fn counts_take(counts: &mut Vec<(PathKey, Vec<usize>)>, key: PathKey, idx: usize) -> (r: usize) {
    match counts_bucket_index(counts, key) {
        Some(ci) => {
            if idx < counts[ci].1.len() {
                let row = &mut counts[ci].1;
                row.remove(idx)
            } else {
                0
            }
        },
        None => 0,
    }
}

/// Counts one more similar path against the retained path at `idx` of
/// `key`'s bucket.
fn counts_increment(counts: &mut Vec<(PathKey, Vec<usize>)>, key: PathKey, idx: usize) {
    match counts_bucket_index(counts, key) {
        Some(ci) => {
            if idx < counts[ci].1.len() {
                let current = counts[ci].1[idx];
                if current < usize::MAX {
                    let row = &mut counts[ci].1;
                    row[idx] = current + 1;
                }
            }
        },
        None => {},
    }
}

/// Appends a count for a newly retained path of `key`'s bucket.
fn counts_push(counts: &mut Vec<(PathKey, Vec<usize>)>, key: PathKey, value: usize) {
    match counts_bucket_index(counts, key) {
        Some(ci) => {
            let row = &mut counts[ci].1;
            row.push(value);
        },
        None => {
            let mut row: Vec<usize> = Vec::new();
            row.push(value);
            counts.push((key, row));
        },
    }
}

/// The total number of retained slots tracked by the first `n` counts
/// buckets.
pub open spec fn spec_slot_total(cs: Seq<(PathKey, Vec<usize>)>, n: int) -> int
    decreases n,
{
    if n <= 0 {
        0
    } else {
        spec_slot_total(cs, n - 1) + cs[n - 1].1@.len()
    }
}

/// The number of tracked keys among the first `n` whose bucket retains
/// exactly `len_val` slots.
pub open spec fn spec_keys_with_len(cs: Seq<(PathKey, Vec<usize>)>, len_val: usize, n: int) -> int
    decreases n,
{
    if n <= 0 {
        0
    } else {
        spec_keys_with_len(cs, len_val, n - 1) + if cs[n - 1].1@.len() == len_val {
            1int
        } else {
            0int
        }
    }
}

/// The number of occurrences of `c` among the first `m` slots of a row.
pub open spec fn spec_row_count(row: Seq<usize>, c: usize, m: int) -> int
    decreases m,
{
    if m <= 0 {
        0
    } else {
        spec_row_count(row, c, m - 1) + if row[m - 1] == c {
            1int
        } else {
            0int
        }
    }
}

/// The number of slots holding the count `c` across the first `n`
/// buckets.
pub open spec fn spec_slots_with_value(cs: Seq<(PathKey, Vec<usize>)>, c: usize, n: int) -> int
    decreases n,
{
    if n <= 0 {
        0
    } else {
        spec_slots_with_value(cs, c, n - 1) + spec_row_count(
            cs[n - 1].1@,
            c,
            cs[n - 1].1@.len() as int,
        )
    }
}

proof fn lemma_slot_total_nonneg(cs: Seq<(PathKey, Vec<usize>)>, n: int)
    ensures
        spec_slot_total(cs, n) >= 0,
    decreases n,
{
    if n > 0 {
        lemma_slot_total_nonneg(cs, n - 1);
    }
}

proof fn lemma_slot_total_monotone(cs: Seq<(PathKey, Vec<usize>)>, a: int, b: int)
    requires
        a <= b,
    ensures
        spec_slot_total(cs, a) <= spec_slot_total(cs, b),
    decreases b - a,
{
    if a < b {
        lemma_slot_total_monotone(cs, a, b - 1);
    }
}

/// Statistics about similar-path pruning: the distribution of how many
/// similar paths were seen per key, and of the bucket sizes.
#[derive(Debug)]
pub struct SimilarPathStats {
    pub similar_path_count: crate::stats::FrequencyDistribution,
    pub similar_path_bucket_size: crate::stats::FrequencyDistribution,
}

impl SimilarPathStats {
    pub fn new() -> (r: SimilarPathStats)
        ensures
            r.similar_path_count.wf(),
            r.similar_path_bucket_size.wf(),
            r.similar_path_count.total == 0,
            r.similar_path_count.values@.len() == 0,
            r.similar_path_bucket_size.total == 0,
            r.similar_path_bucket_size.values@.len() == 0,
    {
        SimilarPathStats {
            similar_path_count: crate::stats::FrequencyDistribution::new(),
            similar_path_bucket_size: crate::stats::FrequencyDistribution::new(),
        }
    }

    /// Merges another round of statistics into this one.
    pub fn add_assign(&mut self, rhs: &SimilarPathStats)
        requires
            old(self).similar_path_count.wf(),
            old(self).similar_path_bucket_size.wf(),
            rhs.similar_path_count.wf(),
            rhs.similar_path_bucket_size.wf(),
            old(self).similar_path_count.total + rhs.similar_path_count.total <= usize::MAX,
            old(self).similar_path_bucket_size.total + rhs.similar_path_bucket_size.total
                <= usize::MAX,
        ensures
            final(self).similar_path_count.wf(),
            final(self).similar_path_bucket_size.wf(),
    {
        self.similar_path_count.add_assign(&rhs.similar_path_count);
        self.similar_path_bucket_size.add_assign(&rhs.similar_path_bucket_size);
    }
}

} // verus!
