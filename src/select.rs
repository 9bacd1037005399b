//! Selection over `u64` values in their natural order: the algorithm, its
//! contract, and the laws that follow from the contract.
use vstd::prelude::*;
use vstd::multiset::Multiset;

verus! {

broadcast use vstd::seq_lib::group_to_multiset_ensures;

/// `s[i]` splits `s`: nothing before position `i` is greater than `s[i]`,
/// nothing after it is smaller.
pub open spec fn partitioned_at(s: Seq<u64>, i: int) -> bool {
    &&& 0 <= i < s.len()
    &&& forall|j: int| 0 <= j < i ==> #[trigger] s[j] <= s[i]
    &&& forall|j: int| i < j < s.len() ==> s[i] <= #[trigger] s[j]
}

/// `after` differs from `before` only by a rearrangement of `before[lo..hi)`.
pub open spec fn permuted_within(before: Seq<u64>, after: Seq<u64>, lo: int, hi: int) -> bool {
    &&& after.len() == before.len()
    &&& 0 <= lo <= hi <= before.len()
    &&& forall|k: int| 0 <= k < before.len() && !(lo <= k < hi) ==> #[trigger] after[k] == before[k]
    &&& after.subrange(lo, hi).to_multiset() == before.subrange(lo, hi).to_multiset()
}

/// Exchanging two entries keeps the multiset of values.
proof fn lemma_swap_multiset(s: Seq<u64>, i: int, j: int)
    requires
        0 <= i < s.len(),
        0 <= j < s.len(),
    ensures
        s.update(i, s[j]).update(j, s[i]).to_multiset() =~= s.to_multiset(),
{
    broadcast use vstd::multiset::group_multiset_axioms;

    let t = s.update(i, s[j]);
    vstd::seq_lib::to_multiset_update(s, i, s[j]);
    vstd::seq_lib::to_multiset_update(t, j, s[i]);
    if i == j {
        assert(s.update(i, s[j]).update(j, s[i]) =~= s);
    } else {
        assert(t[j] == s[j]);
    }
}

proof fn lemma_permuted_within_trans(a: Seq<u64>, b: Seq<u64>, c: Seq<u64>, lo: int, hi: int)
    requires
        permuted_within(a, b, lo, hi),
        permuted_within(b, c, lo, hi),
    ensures
        permuted_within(a, c, lo, hi),
{
}

/// Every value of the rearranged range was already somewhere in that range.
proof fn lemma_permuted_within_source(before: Seq<u64>, after: Seq<u64>, lo: int, hi: int, k: int)
    requires
        permuted_within(before, after, lo, hi),
        lo <= k < hi,
    ensures
        exists|m: int| lo <= m < hi && before[m] == after[k],
{
    let sa = after.subrange(lo, hi);
    let sb = before.subrange(lo, hi);
    assert(sa[k - lo] == after[k]);
    assert(sa.contains(after[k]));
    assert(sb.to_multiset().count(after[k]) > 0);
    assert(sb.contains(after[k]));
    let m = choose|m: int| 0 <= m < sb.len() && sb[m] == after[k];
    assert(before[m + lo] == after[k]);
}

/// A rearrangement of a range is also one of any range around it.
proof fn lemma_permuted_within_widen(
    before: Seq<u64>,
    after: Seq<u64>,
    lo: int,
    hi: int,
    wlo: int,
    whi: int,
)
    requires
        permuted_within(before, after, lo, hi),
        0 <= wlo <= lo,
        hi <= whi <= before.len(),
    ensures
        permuted_within(before, after, wlo, whi),
{
    broadcast use vstd::seq_lib::lemma_multiset_commutative;

    assert(before.subrange(wlo, whi) =~= before.subrange(wlo, lo) + before.subrange(lo, hi)
        + before.subrange(hi, whi));
    assert(after.subrange(wlo, whi) =~= after.subrange(wlo, lo) + after.subrange(lo, hi)
        + after.subrange(hi, whi));
    assert(after.subrange(wlo, lo) =~= before.subrange(wlo, lo));
    assert(after.subrange(hi, whi) =~= before.subrange(hi, whi));
}

proof fn lemma_permuted_within_multiset(before: Seq<u64>, after: Seq<u64>, lo: int, hi: int)
    requires
        permuted_within(before, after, lo, hi),
    ensures
        after.to_multiset() == before.to_multiset(),
{
    lemma_permuted_within_widen(before, after, lo, hi, 0, before.len() as int);
    assert(before.subrange(0, before.len() as int) =~= before);
    assert(after.subrange(0, before.len() as int) =~= after);
}

/// Exchanges `v[i]` and `v[j]`.
fn swap(v: &mut Vec<u64>, i: usize, j: usize, Ghost(lo): Ghost<int>, Ghost(hi): Ghost<int>)
    requires
        0 <= lo <= i < hi <= old(v).len(),
        lo <= j < hi,
    ensures
        final(v)@ == old(v)@.update(i as int, old(v)@[j as int]).update(j as int, old(v)@[i as int]),
        permuted_within(old(v)@, final(v)@, lo, hi),
{
    let a = v[i];
    let b = v[j];
    v.set(i, b);
    v.set(j, a);
    proof {
        let s = old(v)@;
        let r = s.subrange(lo, hi);
        assert(v@.subrange(lo, hi) =~= r.update(i - lo, r[j - lo]).update(j - lo, r[i - lo]));
        lemma_swap_multiset(r, i - lo, j - lo);
    }
}


/// Position, among `lo`, the middle of `[lo, hi)` and `hi - 1`, of the
/// median of the three values found there.
fn median_of_three(v: &Vec<u64>, lo: usize, hi: usize) -> (m: usize)
    requires
        lo < hi <= v.len(),
    ensures
        lo <= m < hi,
{
    let mid = lo + (hi - lo) / 2;
    let last = hi - 1;
    let (a, b, c) = (v[lo], v[mid], v[last]);
    if a <= b {
        if b <= c {
            mid
        } else if a <= c {
            last
        } else {
            lo
        }
    } else {
        if a <= c {
            lo
        } else if b <= c {
            last
        } else {
            mid
        }
    }
}

/// Three-way partition of `v[lo..hi)` around the value at position `m`.
/// Afterwards `v[lo..lt)` is below the pivot, `v[lt..gt)` equals it and
/// `v[gt..hi)` is above it; the equal block is never empty.
fn partition(v: &mut Vec<u64>, lo: usize, hi: usize, m: usize) -> (r: (usize, usize))
    requires
        lo <= m < hi <= old(v).len(),
    ensures
        lo <= r.0 < r.1 <= hi,
        permuted_within(old(v)@, final(v)@, lo as int, hi as int),
        forall|k: int| lo <= k < r.0 ==> #[trigger] final(v)@[k] < final(v)@[r.0 as int],
        forall|k: int| r.0 <= k < r.1 ==> #[trigger] final(v)@[k] == final(v)@[r.0 as int],
        forall|k: int| r.1 <= k < hi ==> #[trigger] final(v)@[k] > final(v)@[r.0 as int],
{
    let ghost start = v@;
    swap(v, m, lo, Ghost(lo as int), Ghost(hi as int));
    let pivot = v[lo];
    let mut lt: usize = lo;
    let mut i: usize = lo + 1;
    let mut gt: usize = hi;
    while i < gt
        invariant
            lo <= lt < i <= gt <= hi <= v.len(),
            permuted_within(start, v@, lo as int, hi as int),
            forall|k: int| lo <= k < lt ==> #[trigger] v@[k] < pivot,
            forall|k: int| lt <= k < i ==> #[trigger] v@[k] == pivot,
            forall|k: int| gt <= k < hi ==> #[trigger] v@[k] > pivot,
        decreases gt - i,
    {
        let ghost before = v@;
        let x = v[i];
        if x < pivot {
            swap(v, lt, i, Ghost(lo as int), Ghost(hi as int));
            lt = lt + 1;
            i = i + 1;
        } else if x > pivot {
            gt = gt - 1;
            swap(v, i, gt, Ghost(lo as int), Ghost(hi as int));
        } else {
            i = i + 1;
        }
        proof {
            lemma_permuted_within_trans(start, before, v@, lo as int, hi as int);
        }
    }
    (lt, gt)
}


/// Ranges at most this long are sorted outright rather than partitioned.
pub const SMALL_RANGE: usize = 8;

pub open spec fn sorted_between(s: Seq<u64>, lo: int, hi: int) -> bool {
    forall|a: int, b: int| lo <= a < b < hi ==> #[trigger] s[a] <= #[trigger] s[b]
}

/// Sorts `v[lo..hi)` in place by insertion.
fn insertion_sort(v: &mut Vec<u64>, lo: usize, hi: usize)
    requires
        lo <= hi <= old(v).len(),
    ensures
        permuted_within(old(v)@, final(v)@, lo as int, hi as int),
        sorted_between(final(v)@, lo as int, hi as int),
{
    let ghost start = v@;
    if hi - lo < 2 {
        return;
    }
    let mut k: usize = lo + 1;
    while k < hi
        invariant
            lo < k <= hi <= v.len(),
            permuted_within(start, v@, lo as int, hi as int),
            sorted_between(v@, lo as int, k as int),
        decreases hi - k,
    {
        let mut j: usize = k;
        while j > lo && v[j - 1] > v[j]
            invariant
                lo <= j <= k < hi <= v.len(),
                permuted_within(start, v@, lo as int, hi as int),
                forall|a: int, b: int|
                    lo <= a < b <= k && a != j && b != j ==> #[trigger] v@[a] <= #[trigger] v@[b],
                forall|b: int| j < b <= k ==> v@[j as int] <= #[trigger] v@[b],
            decreases j,
        {
            let ghost before = v@;
            swap(v, j - 1, j, Ghost(lo as int), Ghost(hi as int));
            proof {
                lemma_permuted_within_trans(start, before, v@, lo as int, hi as int);
            }
            j = j - 1;
        }
        proof {
            let s = v@;
            assert forall|a: int, b: int| lo <= a < b < k + 1 implies #[trigger] s[a] <= #[trigger] s[b] by {
                if a == j {
                } else if b == j {
                    assert(s[a] <= s[j - 1]);
                }
            }
        }
        k = k + 1;
    }
}

/// Whether `v` is already split at position `index`.
pub fn is_partitioned_at(v: &Vec<u64>, index: usize) -> (r: bool)
    ensures
        r == partitioned_at(v@, index as int),
{
    if index >= v.len() {
        return false;
    }
    let x = v[index];
    let mut j: usize = 0;
    while j < v.len()
        invariant
            index < v.len(),
            x == v@[index as int],
            j <= v.len(),
            forall|k: int| 0 <= k < j && k < index ==> #[trigger] v@[k] <= x,
            forall|k: int| 0 <= k < j && index < k ==> x <= #[trigger] v@[k],
        decreases v.len() - j,
    {
        if j < index && v[j] > x {
            return false;
        }
        if j > index && v[j] < x {
            return false;
        }
        j = j + 1;
    }
    true
}

/// Number of binary digits of `n`, at most 64.
fn bit_length(n: usize) -> (r: usize)
    ensures
        r <= 64,
{
    let mut x = n;
    let mut r: usize = 0;
    while x > 0 && r < 64
        invariant
            r <= 64,
        decreases x,
    {
        x = x / 2;
        r = r + 1;
    }
    r
}

/// Selection restricted to `v[lo..hi)`: rearranges that range so that
/// `v[index]` has no greater value before it and no smaller value after it
/// within the range. Pivots are medians of three until a budget of rounds
/// proportional to the range's bit length runs out, then medians of medians.
fn select_range(v: &mut Vec<u64>, lo: usize, hi: usize, index: usize)
    requires
        lo <= index < hi <= old(v).len(),
    ensures
        permuted_within(old(v)@, final(v)@, lo as int, hi as int),
        forall|j: int| lo <= j < index ==> #[trigger] final(v)@[j] <= final(v)@[index as int],
        forall|j: int| index < j < hi ==> final(v)@[index as int] <= #[trigger] final(v)@[j],
    decreases hi - lo, 1int,
{
    let ghost start = v@;
    let mut a: usize = lo;
    let mut b: usize = hi;
    let mut budget: usize = 2 * bit_length(hi - lo);
    loop
        invariant
            lo <= a <= index < b <= hi <= v.len(),
            start == old(v)@,
            permuted_within(start, v@, lo as int, hi as int),
            forall|x: int, y: int| lo <= x < a <= y < hi ==> #[trigger] v@[x] <= #[trigger] v@[y],
            forall|x: int, y: int| lo <= x < b <= y < hi ==> #[trigger] v@[x] <= #[trigger] v@[y],
        decreases b - a,
    {
        let ghost before = v@;
        if b - a <= SMALL_RANGE {
            insertion_sort(v, a, b);
            proof {
                let s = v@;
                lemma_permuted_within_widen(before, s, a as int, b as int, lo as int, hi as int);
                lemma_permuted_within_trans(start, before, s, lo as int, hi as int);
                assert forall|j: int| lo <= j < index implies #[trigger] s[j] <= s[index as int] by {
                    if j < a {
                        lemma_permuted_within_source(before, s, a as int, b as int, index as int);
                        let m = choose|m: int| a <= m < b && before[m] == s[index as int];
                        assert(before[j] <= before[m]);
                    }
                }
                assert forall|j: int| index < j < hi implies s[index as int] <= #[trigger] s[j] by {
                    if j >= b {
                        lemma_permuted_within_source(before, s, a as int, b as int, index as int);
                        let m = choose|m: int| a <= m < b && before[m] == s[index as int];
                        assert(before[m] <= before[j]);
                    }
                }
            }
            return;
        }
        let m = if budget > 0 {
            budget = budget - 1;
            median_of_three(v, a, b)
        } else {
            median_of_medians(v, a, b)
        };
        let ghost chosen = v@;
        let (lt, gt) = partition(v, a, b, m);
        proof {
            let after = v@;
            lemma_permuted_within_trans(before, chosen, after, a as int, b as int);
            lemma_permuted_within_widen(before, after, a as int, b as int, lo as int, hi as int);
            lemma_permuted_within_trans(start, before, after, lo as int, hi as int);
            assert forall|x: int, y: int| lo <= x < a <= y < hi implies #[trigger] after[x] <= #[trigger] after[y] by {
                if y < b {
                    lemma_permuted_within_source(before, after, a as int, b as int, y);
                    let m = choose|m: int| a <= m < b && before[m] == after[y];
                    assert(before[x] <= before[m]);
                } else {
                    assert(before[x] <= before[y]);
                }
            }
            assert forall|x: int, y: int| lo <= x < b <= y < hi implies #[trigger] after[x] <= #[trigger] after[y] by {
                if a <= x {
                    lemma_permuted_within_source(before, after, a as int, b as int, x);
                    let m = choose|m: int| a <= m < b && before[m] == after[x];
                    assert(before[m] <= before[y]);
                } else {
                    assert(before[x] <= before[y]);
                }
            }
        }
        let ghost s = v@;
        let ghost p = s[lt as int];
        if index < lt {
            proof {
                assert forall|x: int, y: int| lo <= x < lt <= y < hi implies #[trigger] s[x] <= #[trigger] s[y] by {
                    if x < a {
                        assert(s[x] <= s[y]);
                    } else if y >= b {
                        assert(s[x] <= s[y]);
                    } else {
                        assert(s[x] < p);
                        if y < gt {
                            assert(s[y] == p);
                        } else {
                            assert(s[y] > p);
                        }
                    }
                }
            }
            b = lt;
        } else if index < gt {
            proof {
                assert(s[index as int] == p);
                assert forall|j: int| lo <= j < index implies #[trigger] s[j] <= s[index as int] by {
                    if j < a {
                        assert(s[j] <= s[index as int]);
                    } else if j < lt {
                        assert(s[j] < p);
                    } else {
                        assert(s[j] == p);
                    }
                }
                assert forall|j: int| index < j < hi implies s[index as int] <= #[trigger] s[j] by {
                    if j >= b {
                        assert(s[index as int] <= s[j]);
                    } else if j >= gt {
                        assert(s[j] > p);
                    } else {
                        assert(s[j] == p);
                    }
                }
            }
            return;
        } else {
            proof {
                assert forall|x: int, y: int| lo <= x < gt <= y < hi implies #[trigger] s[x] <= #[trigger] s[y] by {
                    if x < a {
                        assert(s[x] <= s[y]);
                    } else if y >= b {
                        assert(s[x] <= s[y]);
                    } else {
                        assert(s[y] > p);
                        if x < lt {
                            assert(s[x] < p);
                        } else {
                            assert(s[x] == p);
                        }
                    }
                }
            }
            a = gt;
        }
    }
}

/// Pivot position for `v[lo..hi)` by the median of medians: each group of
/// five is sorted and its median moved to the front of the range, and the
/// median of those medians is selected in place.
fn median_of_medians(v: &mut Vec<u64>, lo: usize, hi: usize) -> (m: usize)
    requires
        lo < hi <= old(v).len(),
        hi - lo > SMALL_RANGE,
    ensures
        lo <= m < hi,
        permuted_within(old(v)@, final(v)@, lo as int, hi as int),
    decreases hi - lo, 0int,
{
    let ghost start = v@;
    let mut groups: usize = 0;
    let mut first: usize = lo;
    while first < hi
        invariant
            lo <= first <= hi <= v.len(),
            hi - lo > SMALL_RANGE,
            start == old(v)@,
            first == hi || first - lo == 5 * groups,
            first - lo <= 5 * groups,
            5 * groups < first - lo + 5,
            permuted_within(start, v@, lo as int, hi as int),
        decreases hi - first,
    {
        let end = if hi - first > 5 {
            first + 5
        } else {
            hi
        };
        let ghost before = v@;
        insertion_sort(v, first, end);
        let ghost sorted = v@;
        let median = first + (end - first) / 2;
        swap(v, lo + groups, median, Ghost(lo as int), Ghost(hi as int));
        proof {
            lemma_permuted_within_widen(before, sorted, first as int, end as int, lo as int, hi as int);
            lemma_permuted_within_trans(before, sorted, v@, lo as int, hi as int);
            lemma_permuted_within_trans(start, before, v@, lo as int, hi as int);
        }
        groups = groups + 1;
        first = end;
    }
    let ghost before = v@;
    let target = lo + groups / 2;
    select_range(v, lo, lo + groups, target);
    proof {
        lemma_permuted_within_widen(before, v@, lo as int, (lo + groups) as int, lo as int, hi as int);
        lemma_permuted_within_trans(start, before, v@, lo as int, hi as int);
    }
    target
}

/// What a selection at rank `i` may turn `before` into: a rearrangement of
/// the same values, split at `i`, and `before` itself where it was split
/// there already.
pub open spec fn is_selection(before: Seq<u64>, after: Seq<u64>, i: int) -> bool {
    &&& after.to_multiset() == before.to_multiset()
    &&& partitioned_at(after, i)
    &&& partitioned_at(before, i) ==> after == before
}

/// Rearranges `v` in place so that `v[index]` holds the value of rank
/// `index`, with no greater value before it and no smaller value after it.
/// A vector that is already split at `index` is left as it is.
pub fn select_nth_unstable(v: &mut Vec<u64>, index: usize)
    requires
        index < old(v).len(),
    ensures
        final(v)@.len() == old(v)@.len(),
        is_selection(old(v)@, final(v)@, index as int),
        is_order_statistic(old(v)@.to_multiset(), index as int, final(v)@[index as int]),
{
    if is_partitioned_at(v, index) {
        proof {
            lemma_selection_value_has_rank(v@, v@, index as int);
        }
        return;
    }
    let n = v.len();
    select_range(v, 0, n, index);
    proof {
        lemma_permuted_within_multiset(old(v)@, v@, 0, n as int);
        lemma_selection_value_has_rank(old(v)@, v@, index as int);
    }
}

/// `x` is the value of rank `i` (counted from zero) in `m`: `m` is `x`
/// together with `i` values that are at most `x` and values that are at
/// least `x`.
pub open spec fn is_order_statistic(m: Multiset<u64>, i: int, x: u64) -> bool {
    exists|below: Multiset<u64>, above: Multiset<u64>|
        {
            &&& #[trigger] below.add(above).insert(x) == m
            &&& below.len() == i
            &&& forall|y: u64| below.contains(y) ==> y <= x
            &&& forall|y: u64| above.contains(y) ==> x <= y
        }
}

/// After a selection at rank `i`, the value at position `i` is the value of
/// rank `i` among the values the sequence held before.
pub proof fn lemma_selection_value_has_rank(before: Seq<u64>, after: Seq<u64>, i: int)
    requires
        is_selection(before, after, i),
    ensures
        is_order_statistic(before.to_multiset(), i, after[i]),
{
    broadcast use vstd::seq_lib::lemma_multiset_commutative;
    broadcast use vstd::multiset::group_multiset_axioms;

    let x = after[i];
    let left = after.take(i);
    let right = after.skip(i + 1);
    assert(after =~= left.push(x) + right);
    let below = left.to_multiset();
    let above = right.to_multiset();
    assert(below.add(above).insert(x) =~= after.to_multiset());
    assert forall|y: u64| below.contains(y) implies y <= x by {
        assert(left.contains(y));
        let j = choose|j: int| 0 <= j < left.len() && left[j] == y;
        assert(after[j] <= after[i]);
    }
    assert forall|y: u64| above.contains(y) implies x <= y by {
        assert(right.contains(y));
        let j = choose|j: int| 0 <= j < right.len() && right[j] == y;
        assert(after[i] <= after[i + 1 + j]);
    }
}

/// Selecting twice at the same rank changes nothing the second time.
pub proof fn lemma_selection_idempotent(before: Seq<u64>, once: Seq<u64>, twice: Seq<u64>, i: int)
    requires
        is_selection(before, once, i),
        is_selection(once, twice, i),
    ensures
        twice == once,
{
}

/// Selecting at rank zero puts the smallest value first.
pub proof fn lemma_selection_first_is_minimum(before: Seq<u64>, after: Seq<u64>)
    requires
        is_selection(before, after, 0),
    ensures
        before.contains(after[0]),
        forall|j: int| 0 <= j < before.len() ==> after[0] <= #[trigger] before[j],
        forall|j: int| 0 <= j < after.len() ==> after[0] <= #[trigger] after[j],
{
    assert(after.contains(after[0]));
    assert(after.to_multiset().count(after[0]) > 0);
    assert(before.to_multiset().count(after[0]) > 0);
    assert forall|j: int| 0 <= j < before.len() implies after[0] <= #[trigger] before[j] by {
        assert(before.contains(before[j]));
        assert(before.to_multiset().count(before[j]) > 0);
        assert(after.to_multiset().count(before[j]) > 0);
        assert(after.contains(before[j]));
        let k = choose|k: int| 0 <= k < after.len() && after[k] == before[j];
        assert(k == 0 || after[0] <= after[k]);
    }
}

/// Selecting at the last rank puts the largest value last.
pub proof fn lemma_selection_last_is_maximum(before: Seq<u64>, after: Seq<u64>)
    requires
        before.len() > 0,
        is_selection(before, after, before.len() - 1),
    ensures
        before.contains(after[before.len() - 1]),
        forall|j: int| 0 <= j < before.len() ==> #[trigger] before[j] <= after[before.len() - 1],
        forall|j: int| 0 <= j < after.len() ==> #[trigger] after[j] <= after[before.len() - 1],
{
    let last = before.len() - 1;
    assert(after.to_multiset().len() == before.to_multiset().len());
    assert(after.len() == before.len());
    assert(after.contains(after[last]));
    assert(after.to_multiset().count(after[last]) > 0);
    assert(before.to_multiset().count(after[last]) > 0);
    assert forall|j: int| 0 <= j < before.len() implies #[trigger] before[j] <= after[last] by {
        assert(before.contains(before[j]));
        assert(before.to_multiset().count(before[j]) > 0);
        assert(after.to_multiset().count(before[j]) > 0);
        assert(after.contains(before[j]));
        let k = choose|k: int| 0 <= k < after.len() && after[k] == before[j];
        assert(k == last || after[k] <= after[last]);
    }
}

/// A single value is left where it is.
pub proof fn lemma_selection_single_unchanged(before: Seq<u64>, after: Seq<u64>)
    requires
        before.len() == 1,
        is_selection(before, after, 0),
    ensures
        after == before,
{
}

} // verus!
