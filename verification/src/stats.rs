//! Frequency distributions: counting how often values occur, with
//! quantile computation over the recorded counts.
//!
//! The distribution keeps its entries sorted by value with one entry per
//! distinct value, so iteration order — and with it every derived
//! statistic — is deterministic.

use vstd::prelude::*;

verus! {

/// The sum of the counts of an entry sequence.
pub open spec fn spec_sum_counts(s: Seq<(usize, usize)>) -> int
    decreases s.len(),
{
    if s.len() == 0 {
        0
    } else {
        spec_sum_counts(s.drop_last()) + s.last().1
    }
}

/// The count recorded for `v` in an entry sequence with unique keys; zero
/// when `v` was never recorded.
pub open spec fn spec_count_in(s: Seq<(usize, usize)>, v: usize) -> int {
    if exists|k: int| 0 <= k < s.len() && (#[trigger] s[k]).0 == v {
        let k = choose|k: int| 0 <= k < s.len() && (#[trigger] s[k]).0 == v;
        s[k].1 as int
    } else {
        0
    }
}

/// The number of recorded values at or below `w`: the cumulative count up
/// to `w`.
pub open spec fn spec_cum(s: Seq<(usize, usize)>, w: usize) -> int
    decreases s.len(),
{
    if s.len() == 0 {
        0
    } else {
        spec_cum(s.drop_last(), w) + if s.last().0 <= w {
            s.last().1 as int
        } else {
            0
        }
    }
}

/// The cumulative-count threshold of the `k`-th of `q` quantiles over
/// `total` recorded values: `total * k / q`, rounded half away from zero.
pub open spec fn spec_quantile_limit(total: usize, k: int, q: usize) -> int {
    (2 * (total as int) * k + (q as int)) / (2 * (q as int))
}

proof fn lemma_sum_update(s: Seq<(usize, usize)>, k: int, pair: (usize, usize))
    requires
        0 <= k < s.len(),
    ensures
        spec_sum_counts(s.update(k, pair)) == spec_sum_counts(s) - s[k].1 + pair.1,
    decreases s.len(),
{
    let t = s.update(k, pair);
    if k == s.len() - 1 {
        assert(t.drop_last() =~= s.drop_last());
    } else {
        assert(t.drop_last() =~= s.drop_last().update(k, pair));
        lemma_sum_update(s.drop_last(), k, pair);
    }
}

proof fn lemma_sum_push(s: Seq<(usize, usize)>, pair: (usize, usize))
    ensures
        spec_sum_counts(s.push(pair)) == spec_sum_counts(s) + pair.1,
{
    assert(s.push(pair).drop_last() =~= s);
}

proof fn lemma_sum_insert(s: Seq<(usize, usize)>, idx: int, pair: (usize, usize))
    requires
        0 <= idx <= s.len(),
    ensures
        spec_sum_counts(s.insert(idx, pair)) == spec_sum_counts(s) + pair.1,
    decreases s.len(),
{
    let t = s.insert(idx, pair);
    if idx == s.len() {
        assert(t =~= s.push(pair));
        lemma_sum_push(s, pair);
    } else {
        assert(t.drop_last() =~= s.drop_last().insert(idx, pair));
        assert(t.last() == s.last());
        lemma_sum_insert(s.drop_last(), idx, pair);
    }
}

proof fn lemma_count_le_sum(s: Seq<(usize, usize)>, k: int)
    requires
        0 <= k < s.len(),
    ensures
        s[k].1 <= spec_sum_counts(s),
        spec_sum_counts(s) >= 0,
    decreases s.len(),
{
    lemma_sum_nonneg(s.drop_last());
    if k == s.len() - 1 {
    } else {
        lemma_count_le_sum(s.drop_last(), k);
    }
}

proof fn lemma_sum_nonneg(s: Seq<(usize, usize)>)
    ensures
        spec_sum_counts(s) >= 0,
    decreases s.len(),
{
    if s.len() > 0 {
        lemma_sum_nonneg(s.drop_last());
    }
}

/// Cumulative counts below the largest key reach the whole total: over a
/// sequence sorted strictly by key, `spec_cum` at the last key equals the
/// sum of all counts.
proof fn lemma_cum_full(s: Seq<(usize, usize)>, w: usize)
    requires
        forall|i: int| 0 <= i < s.len() ==> (#[trigger] s[i]).0 <= w,
    ensures
        spec_cum(s, w) == spec_sum_counts(s),
    decreases s.len(),
{
    if s.len() > 0 {
        lemma_cum_full(s.drop_last(), w);
    }
}

/// Over a prefix of a sorted entry sequence, the cumulative count at the
/// prefix's last key equals the sum of the prefix's counts.
proof fn lemma_cum_prefix(s: Seq<(usize, usize)>, n: int, w: usize)
    requires
        0 <= n <= s.len(),
        forall|i: int, j: int| 0 <= i < j < s.len() ==> (#[trigger] s[i]).0 < (#[trigger] s[j]).0,
        forall|i: int| 0 <= i < n ==> (#[trigger] s[i]).0 <= w,
        forall|i: int| n <= i < s.len() ==> (#[trigger] s[i]).0 > w,
    ensures
        spec_cum(s, w) == spec_sum_counts(s.take(n)),
    decreases s.len(),
{
    if s.len() == 0 {
    } else if n == s.len() {
        lemma_cum_full(s, w);
        assert(s.take(n) =~= s);
    } else {
        assert(s.last().0 > w);
        assert(s.drop_last().take(n) =~= s.take(n));
        lemma_cum_prefix(s.drop_last(), n, w);
    }
}

/// The number of entries among the first `n` whose count is `c`.
pub open spec fn spec_entries_with_count(s: Seq<(usize, usize)>, c: usize, n: int) -> int
    decreases n,
{
    if n <= 0 {
        0
    } else {
        spec_entries_with_count(s, c, n - 1) + if s[n - 1].1 == c {
            1int
        } else {
            0int
        }
    }
}

/// Appending an entry with a fresh key to a sequence of unique keys adds
/// exactly that entry's count.
proof fn lemma_count_in_snoc(t: Seq<(usize, usize)>, pair: (usize, usize), w: usize)
    requires
        forall|k: int| 0 <= k < t.len() ==> (#[trigger] t[k]).0 != pair.0,
        forall|a: int, b: int| 0 <= a < b < t.len() ==> (#[trigger] t[a]).0 != (#[trigger] t[b]).0,
    ensures
        spec_count_in(t.push(pair), w) == if w == pair.0 {
            pair.1 as int
        } else {
            spec_count_in(t, w)
        },
{
    let u = t.push(pair);
    if w == pair.0 {
        assert(u[t.len() as int].0 == w);
        let k = choose|k: int| 0 <= k < u.len() && (#[trigger] u[k]).0 == w;
        assert(k == t.len() as int) by {
            if k < t.len() {
                assert(t[k].0 != pair.0);
            }
        }
    } else {
        if exists|k: int| 0 <= k < t.len() && (#[trigger] t[k]).0 == w {
            let k = choose|k: int| 0 <= k < t.len() && (#[trigger] t[k]).0 == w;
            assert(u[k].0 == w);
            let k2 = choose|k2: int| 0 <= k2 < u.len() && (#[trigger] u[k2]).0 == w;
            assert(u[t.len() as int].0 == pair.0);
            assert(k2 < t.len());
            assert(t[k2].0 == w);
            let k3 = choose|k3: int| 0 <= k3 < t.len() && (#[trigger] t[k3]).0 == w;
            assert(k2 == k3) by {
                if k2 < k3 {
                    assert(t[k2].0 != t[k3].0);
                } else if k3 < k2 {
                    assert(t[k3].0 != t[k2].0);
                }
            }
            assert(t[k2].1 == u[k2].1);
        } else {
            assert forall|k: int| 0 <= k < u.len() implies (#[trigger] u[k]).0 != w by {
                if k < t.len() {
                    assert(t[k].0 != w);
                }
            }
        }
    }
}

/// Tracks how many times each distinct value has been recorded. Entries
/// are kept sorted by value; the total is the number of recorded values.
#[derive(Debug)]
pub struct FrequencyDistribution {
    pub values: Vec<(usize, usize)>,
    pub total: usize,
}

impl Clone for FrequencyDistribution {
    fn clone(&self) -> (r: Self)
        ensures
            r.values@ == self.values@,
            r.total == self.total,
    {
        let mut values: Vec<(usize, usize)> = Vec::new();
        let n = self.values.len();
        for i in 0..n
            invariant
                n == self.values@.len(),
                values@ == self.values@.take(i as int),
        {
            values.push(self.values[i]);
            proof {
                assert(self.values@.take(i + 1) =~= self.values@.take(i as int).push(
                    self.values@[i as int],
                ));
            }
        }
        proof {
            assert(self.values@.take(n as int) =~= self.values@);
        }
        FrequencyDistribution { values, total: self.total }
    }
}

impl FrequencyDistribution {
    /// Entries are sorted strictly by value (so values are unique), every
    /// count is positive, and the total is the sum of the counts.
    pub open spec fn wf(&self) -> bool {
        &&& forall|i: int, j: int|
            0 <= i < j < self.values@.len() ==> (#[trigger] self.values@[i]).0 < (
            #[trigger] self.values@[j]).0
        &&& forall|i: int| 0 <= i < self.values@.len() ==> (#[trigger] self.values@[i]).1 >= 1
        &&& self.total as int == spec_sum_counts(self.values@)
    }

    /// The count recorded for `v`.
    pub open spec fn spec_count_of(&self, v: usize) -> int {
        spec_count_in(self.values@, v)
    }

    /// An empty distribution.
    pub fn new() -> (r: FrequencyDistribution)
        ensures
            r.wf(),
            r.values@.len() == 0,
            r.total == 0,
    {
        FrequencyDistribution { values: Vec::new(), total: 0 }
    }

    /// Records `count` occurrences of `value` at once.
    fn record_count(&mut self, value: usize, count: usize)
        requires
            old(self).wf(),
            count >= 1,
            old(self).total + count <= usize::MAX,
        ensures
            final(self).wf(),
            final(self).spec_count_of(value) == old(self).spec_count_of(value) + count,
            forall|w: usize|
                w != value ==> final(self).spec_count_of(w) == old(self).spec_count_of(w),
            final(self).total == old(self).total + count,
            final(self).values@.len() == old(self).values@.len() || final(self).values@.len() == old(
                self,
            ).values@.len() + 1,
            final(self).values@.len() == old(self).values@.len() <==> old(self).spec_count_of(value)
                > 0,
    {
        let n = self.values.len();
        let ghost old_values = self.values@;
        let mut idx: usize = 0;
        while idx < n && self.values[idx].0 < value
            invariant
                *self == *old(self),
                n == self.values@.len(),
                idx <= n,
                forall|j: int| 0 <= j < idx ==> (#[trigger] self.values@[j]).0 < value,
            decreases n - idx,
        {
            idx += 1;
        }
        if idx < n && self.values[idx].0 == value {
            let c = self.values[idx].1;
            proof {
                lemma_count_le_sum(self.values@, idx as int);
            }
            let pair = (value, c + count);
            self.values[idx] = pair;
            self.total = self.total + count;
            proof {
                lemma_sum_update(old_values, idx as int, pair);
                assert(self.wf());
                let k0 = choose|k: int|
                    0 <= k < old_values.len() && (#[trigger] old_values[k]).0 == value;
                assert(k0 == idx as int);
                let k1 = choose|k: int|
                    0 <= k < self.values@.len() && (#[trigger] self.values@[k]).0 == value;
                assert(self.values@[idx as int].0 == value);
                assert(k1 == idx as int);
                assert forall|w: usize| w != value implies spec_count_in(self.values@, w)
                    == spec_count_in(old_values, w) by {
                    if exists|k: int|
                        0 <= k < old_values.len() && (#[trigger] old_values[k]).0 == w {
                        let ko = choose|k: int|
                            0 <= k < old_values.len() && (#[trigger] old_values[k]).0 == w;
                        assert(self.values@[ko].0 == w);
                        let kn = choose|k: int|
                            0 <= k < self.values@.len() && (#[trigger] self.values@[k]).0 == w;
                        assert(kn == ko);
                    } else {
                        assert(forall|k: int|
                            0 <= k < self.values@.len() ==> (#[trigger] self.values@[k]).0 != w);
                    }
                }
            }
        } else {
            let pair = (value, count);
            self.values.insert(idx, pair);
            self.total = self.total + count;
            proof {
                lemma_sum_insert(old_values, idx as int, pair);
                assert(forall|k: int|
                    0 <= k < old_values.len() ==> (#[trigger] old_values[k]).0 != value);
                assert forall|i: int, j: int|
                    0 <= i < j < self.values@.len() implies (#[trigger] self.values@[i]).0 < (
                #[trigger] self.values@[j]).0 by {
                    let iv = if i < idx as int {
                        i
                    } else {
                        i - 1
                    };
                    let jv = if j < idx as int {
                        j
                    } else {
                        j - 1
                    };
                    if i != idx as int && j != idx as int {
                        assert(old_values[iv].0 < old_values[jv].0);
                    } else if i == idx as int {
                        assert(self.values@[j] == old_values[j - 1]);
                    } else {
                        assert(self.values@[i] == old_values[i]);
                    }
                }
                assert(self.wf());
                assert(self.values@[idx as int].0 == value);
                let k1 = choose|k: int|
                    0 <= k < self.values@.len() && (#[trigger] self.values@[k]).0 == value;
                assert(k1 == idx as int);
                assert forall|w: usize| w != value implies spec_count_in(self.values@, w)
                    == spec_count_in(old_values, w) by {
                    if exists|k: int|
                        0 <= k < old_values.len() && (#[trigger] old_values[k]).0 == w {
                        let ko = choose|k: int|
                            0 <= k < old_values.len() && (#[trigger] old_values[k]).0 == w;
                        let kshift = if ko < idx as int {
                            ko
                        } else {
                            ko + 1
                        };
                        assert(self.values@[kshift].0 == w);
                        let kn = choose|k: int|
                            0 <= k < self.values@.len() && (#[trigger] self.values@[k]).0 == w;
                        assert(kn == kshift);
                    } else {
                        assert forall|k: int|
                            0 <= k < self.values@.len() implies (#[trigger] self.values@[k]).0
                            != w by {
                            if k < idx as int {
                                assert(self.values@[k] == old_values[k]);
                            } else if k > idx as int {
                                assert(self.values@[k] == old_values[k - 1]);
                            }
                        }
                    }
                }
            }
        }
    }

    /// Records one occurrence of `value`. The number of distinct values
    /// grows by one exactly when the value is new.
    pub fn record(&mut self, value: usize)
        requires
            old(self).wf(),
            old(self).total < usize::MAX,
        ensures
            final(self).wf(),
            final(self).spec_count_of(value) == old(self).spec_count_of(value) + 1,
            forall|w: usize|
                w != value ==> final(self).spec_count_of(w) == old(self).spec_count_of(w),
            final(self).total == old(self).total + 1,
            final(self).values@.len() == old(self).values@.len() || final(self).values@.len()
                == old(self).values@.len() + 1,
            final(self).values@.len() == old(self).values@.len() <==> old(self).spec_count_of(
                value,
            ) > 0,
    {
        self.record_count(value, 1);
    }

    /// The total number of recorded values.
    pub fn count(&self) -> (r: usize)
        ensures
            r == self.total,
    {
        self.total
    }

    /// The number of distinct recorded values.
    pub fn unique(&self) -> (r: usize)
        ensures
            r == self.values@.len(),
    {
        self.values.len()
    }

    /// The distribution of the counts themselves: how many values were
    /// recorded once, twice, and so on. Its total is this distribution's
    /// number of distinct values, and each count `c` is recorded in it
    /// exactly as often as values were recorded `c` times here.
    pub fn frequencies(&self) -> (r: FrequencyDistribution)
        requires
            self.wf(),
        ensures
            r.wf(),
            r.total == self.values@.len(),
            forall|c: usize| #[trigger] r.spec_count_of(c) == spec_entries_with_count(
                self.values@,
                c,
                self.values@.len() as int,
            ),
    {
        let mut fs = FrequencyDistribution::new();
        let n = self.values.len();
        for i in 0..n
            invariant
                n == self.values@.len(),
                fs.wf(),
                fs.total == i,
                forall|c: usize| #[trigger] fs.spec_count_of(c) == spec_entries_with_count(
                    self.values@,
                    c,
                    i as int,
                ),
        {
            proof {
                lemma_count_le_sum(self.values@, i as int);
                lemma_sum_nonneg(self.values@);
            }
            let ghost fs_before = fs;
            fs.record(self.values[i].1);
            proof {
                assert forall|c: usize| #[trigger] fs.spec_count_of(c) == spec_entries_with_count(
                    self.values@,
                    c,
                    i + 1,
                ) by {
                    if c == self.values@[i as int].1 {
                        assert(fs.spec_count_of(c) == fs_before.spec_count_of(c) + 1);
                    } else {
                        assert(fs.spec_count_of(c) == fs_before.spec_count_of(c));
                    }
                }
            }
        }
        fs
    }

    /// Merges another distribution into this one, adding its counts: the
    /// merged count of every value is the sum of its two counts.
    pub fn add_assign(&mut self, rhs: &FrequencyDistribution)
        requires
            old(self).wf(),
            rhs.wf(),
            old(self).total + rhs.total <= usize::MAX,
        ensures
            final(self).wf(),
            final(self).total == old(self).total + rhs.total,
            forall|w: usize| #[trigger] final(self).spec_count_of(w) == old(self).spec_count_of(w)
                + spec_count_in(rhs.values@, w),
    {
        let n = rhs.values.len();
        let ghost rv = rhs.values@;
        for i in 0..n
            invariant
                n == rhs.values@.len(),
                rv == rhs.values@,
                rhs.wf(),
                self.wf(),
                old(self).total + rhs.total <= usize::MAX,
                rhs.total as int == spec_sum_counts(rv),
                self.total as int == old(self).total + spec_sum_counts(rv.take(i as int)),
                forall|w: usize| #[trigger] self.spec_count_of(w) == old(self).spec_count_of(w)
                    + spec_count_in(rv.take(i as int), w),
        {
            proof {
                lemma_count_le_sum(rv, i as int);
                lemma_sum_nonneg(rv);
                assert(rv.take(i + 1).drop_last() =~= rv.take(i as int));
                assert(rv.take(i + 1).last() == rv[i as int]);
                assert(spec_sum_counts(rv.take(i + 1)) == spec_sum_counts(rv.take(i as int))
                    + rv[i as int].1);
                lemma_sum_take_le(rv, i + 1);
                assert(spec_sum_counts(rv) == rhs.total);
            }
            let ghost self_before = *self;
            self.record_count(rhs.values[i].0, rhs.values[i].1);
            proof {
                assert(rv.take(i + 1) =~= rv.take(i as int).push(rv[i as int]));
                assert forall|w: usize| #[trigger] self.spec_count_of(w) == old(self).spec_count_of(
                    w,
                ) + spec_count_in(rv.take(i + 1), w) by {
                    assert forall|k: int| 0 <= k < rv.take(i as int).len() implies (
                    #[trigger] rv.take(i as int)[k]).0 != rv[i as int].0 by {
                        assert(rv[k].0 < rv[i as int].0);
                    }
                    assert forall|a: int, b: int|
                        0 <= a < b < rv.take(i as int).len() implies (#[trigger] rv.take(
                        i as int,
                    )[a]).0 != (#[trigger] rv.take(i as int)[b]).0 by {
                        assert(rv[a].0 < rv[b].0);
                    }
                    lemma_count_in_snoc(rv.take(i as int), rv[i as int], w);
                    if w == rv[i as int].0 {
                        assert(self.spec_count_of(w) == self_before.spec_count_of(w) + rv[
                            i as int
                        ].1);
                    } else {
                        assert(self.spec_count_of(w) == self_before.spec_count_of(w));
                    }
                }
            }
        }
        proof {
            assert(rv.take(n as int) =~= rv);
        }
    }

    /// The quantile boundaries of the recorded values: `q + 1` values, the
    /// `k`-th being the smallest recorded value whose cumulative count
    /// reaches `total * k / q` (rounded half away from zero). The first
    /// boundary is the minimum and the last the maximum. Empty when `q` is
    /// zero or nothing was recorded. The bound on `q` — far beyond any
    /// practical number of quantile groups — keeps the threshold
    /// arithmetic within 128-bit integers on every architecture.
    pub fn quantiles(&self, q: usize) -> (r: Vec<usize>)
        requires
            self.wf(),
            q <= 1073741824,
        ensures
            (q == 0 || self.total == 0) ==> r@.len() == 0,
            q > 0 && self.total > 0 ==> {
                &&& r@.len() == q + 1
                &&& forall|k: int| 0 <= k <= q ==> spec_count_of_pos(self.values@, #[trigger] r@[k])
                &&& forall|k: int|
                    1 <= k <= q ==> spec_cum(self.values@, #[trigger] r@[k])
                        >= spec_quantile_limit(self.total, k, q)
                &&& forall|k: int, w: usize|
                    #![trigger r@[k], spec_cum(self.values@, w)]
                    1 <= k <= q && spec_count_in(self.values@, w) > 0 && w < r@[k] ==> spec_cum(
                        self.values@,
                        w,
                    ) < spec_quantile_limit(self.total, k, q)
                &&& forall|w: usize| #[trigger] spec_count_in(self.values@, w) > 0 ==> r@[0] <= w
            },
    {
        if q == 0 || self.total == 0 {
            return Vec::new();
        }
        let ghost sv = self.values@;
        let n = self.values.len();
        assert(n > 0) by {
            if self.values@.len() == 0 {
                assert(self.total as int == spec_sum_counts(self.values@));
            }
        }
        let mut result: Vec<usize> = Vec::new();
        let mut pos: usize = 0;
        let mut cum: usize = self.values[0].1;
        let mut last_value: usize = self.values[0].0;
        result.push(last_value);
        proof {
            lemma_take_one(sv);
            lemma_cum_prefix(sv, 1, last_value);
            lemma_count_le_sum(sv, 0);
            assert(sv[0].0 == last_value);
            assert(spec_count_in(sv, last_value) > 0);
            assert forall|w: usize| spec_count_in(sv, w) > 0 implies sv[0].0 <= w by {
                let k0 = choose|k: int| 0 <= k < sv.len() && (#[trigger] sv[k]).0 == w;
                if k0 > 0 {
                    assert(sv[0].0 < sv[k0].0);
                }
            }
        }
        let mut k: usize = 1;
        while k <= q
            invariant
                self.wf(),
                sv == self.values@,
                q > 0,
                q <= 1073741824,
                self.total > 0,
                n == sv.len(),
                n > 0,
                1 <= k <= q + 1,
                pos < n,
                result@.len() == k,
                last_value == sv[pos as int].0,
                cum as int == spec_sum_counts(sv.take(pos + 1)),
                cum as int == spec_cum(sv, last_value),
                cum <= self.total,
                result@[0] == sv[0].0,
                forall|w: usize| spec_count_in(sv, w) > 0 ==> sv[0].0 <= w,
                forall|w: usize|
                    spec_count_in(sv, w) > 0 && w < last_value ==> #[trigger] spec_cum(sv, w)
                        < spec_quantile_limit(self.total, k - 1, q),
                forall|j: int| 0 <= j < k ==> spec_count_of_pos(sv, #[trigger] result@[j]),
                forall|j: int|
                    1 <= j < k ==> spec_cum(sv, #[trigger] result@[j]) >= spec_quantile_limit(
                        self.total,
                        j,
                        q,
                    ),
                forall|j: int, w: usize|
                    #![trigger result@[j], spec_cum(sv, w)]
                    1 <= j < k && spec_count_in(sv, w) > 0 && w < result@[j] ==> spec_cum(sv, w)
                        < spec_quantile_limit(self.total, j, q),
            decreases q - k + 1,
        {
            proof {
                let t = self.total as int;
                let ki = k as int;
                let qi = q as int;
                assert(t <= u64::MAX as int);
                assert(2 * t * ki + qi <= u128::MAX as int) by (nonlinear_arith)
                    requires
                        0 <= t <= u64::MAX as int,
                        0 <= ki <= 1073741824,
                        0 <= qi <= 1073741824,
                ;
            }
            let limit128: u128 = (2u128 * (self.total as u128) * (k as u128) + (q as u128)) / (
            2u128 * (q as u128));
            proof {
                assert(limit128 as int == spec_quantile_limit(self.total, k as int, q));
                lemma_limit_le_total(self.total, k as int, q);
                lemma_limit_monotone(self.total, k - 1, k as int, q);
            }
            let limit: usize = limit128 as usize;
            while cum < limit && pos + 1 < n
                invariant
                    self.wf(),
                    sv == self.values@,
                    n == sv.len(),
                    n > 0,
                    pos < n,
                    limit as int == spec_quantile_limit(self.total, k as int, q),
                    limit <= self.total,
                    last_value == sv[pos as int].0,
                    cum as int == spec_sum_counts(sv.take(pos + 1)),
                    cum as int == spec_cum(sv, last_value),
                    cum <= self.total,
                    forall|w: usize|
                        spec_count_in(sv, w) > 0 && w < last_value ==> #[trigger] spec_cum(sv, w)
                            < limit,
                decreases n - pos,
            {
                let ghost old_last = last_value;
                let ghost old_cum = cum;
                pos += 1;
                proof {
                    lemma_cum_step(sv, pos as int);
                    lemma_count_le_sum(sv, pos as int);
                    lemma_sum_take_le(sv, pos + 1);
                }
                cum = cum + self.values[pos].1;
                last_value = self.values[pos].0;
                proof {
                    assert forall|w: usize|
                        spec_count_in(sv, w) > 0 && w < last_value implies #[trigger] spec_cum(
                        sv,
                        w,
                    ) < limit by {
                        lemma_present_below(sv, pos as int, w);
                        assert(w <= sv[pos - 1].0);
                        assert(sv[pos - 1].0 == old_last);
                        if w < old_last {
                        } else {
                            assert(w == old_last);
                            assert(spec_cum(sv, w) == old_cum);
                        }
                    }
                }
            }
            proof {
                if cum < limit {
                    assert(pos + 1 == n);
                    assert(sv.take(n as int) =~= sv);
                    assert(cum == self.total);
                    assert(false);
                }
                assert(spec_count_of_pos(sv, last_value)) by {
                    assert(sv[pos as int].0 == last_value);
                }
            }
            result.push(last_value);
            k += 1;
            proof {
                assert forall|j: int, w: usize|
                    #![trigger result@[j], spec_cum(sv, w)]
                    1 <= j < k && spec_count_in(sv, w) > 0 && w < result@[j] implies spec_cum(
                    sv,
                    w,
                ) < spec_quantile_limit(self.total, j, q) by {
                    if j == k - 1 {
                        assert(result@[j] == last_value);
                        assert(spec_cum(sv, w) < limit);
                    }
                }
            }
        }
        result
    }
}

/// A value recorded in a sorted entry sequence that is smaller than the
/// key at `pos` sits at an earlier position, so it is at most the key
/// just before `pos`.
proof fn lemma_present_below(s: Seq<(usize, usize)>, pos: int, w: usize)
    requires
        forall|i: int, j: int| 0 <= i < j < s.len() ==> (#[trigger] s[i]).0 < (#[trigger] s[j]).0,
        0 <= pos < s.len(),
        spec_count_in(s, w) > 0,
        w < s[pos].0,
    ensures
        pos > 0,
        w <= s[pos - 1].0,
{
    let k0 = choose|k: int| 0 <= k < s.len() && (#[trigger] s[k]).0 == w;
    if k0 >= pos {
        if k0 > pos {
            assert(s[pos].0 < s[k0].0);
        }
        assert(false);
    }
    if k0 < pos - 1 {
        assert(s[k0].0 < s[pos - 1].0);
    }
}

/// Quantile thresholds are nondecreasing in the quantile index.
proof fn lemma_limit_monotone(total: usize, k1: int, k2: int, q: usize)
    requires
        q > 0,
        0 <= k1 <= k2,
    ensures
        spec_quantile_limit(total, k1, q) <= spec_quantile_limit(total, k2, q),
{
    let t = total as int;
    let qi = q as int;
    assert(2 * t * k1 + qi <= 2 * t * k2 + qi) by (nonlinear_arith)
        requires
            t >= 0,
            0 <= k1 <= k2,
    ;
    vstd::arithmetic::div_mod::lemma_div_is_ordered(2 * t * k1 + qi, 2 * t * k2 + qi, 2 * qi);
}

/// True when `v` was recorded at least once.
pub open spec fn spec_count_of_pos(s: Seq<(usize, usize)>, v: usize) -> bool {
    spec_count_in(s, v) > 0
}

proof fn lemma_take_one(s: Seq<(usize, usize)>)
    requires
        s.len() > 0,
    ensures
        spec_sum_counts(s.take(1)) == s[0].1,
{
    let t = s.take(1);
    assert(t.len() == 1);
    assert(t.last() == s[0]);
    assert(t.drop_last() =~= Seq::<(usize, usize)>::empty());
    assert(spec_sum_counts(t.drop_last()) == 0);
    assert(spec_sum_counts(t) == spec_sum_counts(t.drop_last()) + t.last().1);
}

/// Extending the processed prefix by one entry adds that entry's count to
/// both the prefix sum and the cumulative count at the new key.
proof fn lemma_cum_step(s: Seq<(usize, usize)>, pos: int)
    requires
        0 < pos < s.len(),
        forall|i: int, j: int| 0 <= i < j < s.len() ==> (#[trigger] s[i]).0 < (#[trigger] s[j]).0,
    ensures
        spec_sum_counts(s.take(pos + 1)) == spec_sum_counts(s.take(pos)) + s[pos].1,
        spec_cum(s, s[pos].0) == spec_sum_counts(s.take(pos + 1)),
    decreases s.len(),
{
    assert(s.take(pos + 1).drop_last() =~= s.take(pos));
    assert(s.take(pos + 1).last() == s[pos]);
    lemma_cum_prefix(s, pos + 1, s[pos].0);
}

proof fn lemma_sum_take_le(s: Seq<(usize, usize)>, n: int)
    requires
        0 <= n <= s.len(),
    ensures
        spec_sum_counts(s.take(n)) <= spec_sum_counts(s),
    decreases s.len(),
{
    if n == s.len() {
        assert(s.take(n) =~= s);
    } else {
        assert(s.drop_last().take(n) =~= s.take(n));
        lemma_sum_take_le(s.drop_last(), n);
        lemma_sum_nonneg(s.drop_last());
    }
}

/// Every quantile threshold is at most the total: `round(total * k / q)`
/// cannot exceed `total` when `k` is at most `q`.
proof fn lemma_limit_le_total(total: usize, k: int, q: usize)
    requires
        q > 0,
        1 <= k <= q,
    ensures
        spec_quantile_limit(total, k, q) <= total,
        spec_quantile_limit(total, k, q) >= 0,
{
    let t = total as int;
    let qi = q as int;
    assert((2 * t * k + qi) / (2 * qi) <= t) by (nonlinear_arith)
        requires
            qi > 0,
            1 <= k <= qi,
            t >= 0,
    ;
    assert((2 * t * k + qi) / (2 * qi) >= 0) by (nonlinear_arith)
        requires
            qi > 0,
            1 <= k <= qi,
            t >= 0,
    ;
}

} // verus!
