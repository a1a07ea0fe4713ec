//! Longest common subsequences of two sequences, by a dynamic programming table.
use vstd::laws_eq::obeys_concrete_eq;
use vstd::prelude::*;

verus! {

/// Length of a longest common subsequence of `a[0..i)` and `b[0..j)`.
pub open spec fn lcs_length<T>(a: Seq<T>, b: Seq<T>, i: int, j: int) -> int
    decreases i + j,
{
    if i <= 0 || j <= 0 {
        0
    } else if a[i - 1] == b[j - 1] {
        1 + lcs_length(a, b, i - 1, j - 1)
    } else {
        let up = lcs_length(a, b, i - 1, j);
        let left = lcs_length(a, b, i, j - 1);
        if up >= left {
            up
        } else {
            left
        }
    }
}

/// The index pairs that backtracking from cell `(i, j)` recovers, in increasing order.
/// On a tie the step consumes an element of `a`.
pub open spec fn lcs_pairs<T>(a: Seq<T>, b: Seq<T>, i: int, j: int) -> Seq<(int, int)>
    decreases i + j,
{
    if i <= 0 || j <= 0 {
        seq![]
    } else if a[i - 1] == b[j - 1] {
        lcs_pairs(a, b, i - 1, j - 1).push((i - 1, j - 1))
    } else if lcs_length(a, b, i, j - 1) > lcs_length(a, b, i - 1, j) {
        lcs_pairs(a, b, i, j - 1)
    } else {
        lcs_pairs(a, b, i - 1, j)
    }
}

/// The index pairs of an exec result of `longest_common_subsequence`.
pub open spec fn pair_indices<T>(r: Seq<(&T, (usize, usize))>) -> Seq<(int, int)> {
    r.map_values(|e: (&T, (usize, usize))| (e.1.0 as int, e.1.1 as int))
}

/// A sequence of index pairs that is strictly increasing in both components,
/// stays below `n` and `m`, and pairs equal elements of `a` and `b`.
pub open spec fn is_common_subsequence<T>(a: Seq<T>, b: Seq<T>, p: Seq<(int, int)>) -> bool {
    &&& forall|k: int| 0 <= k < p.len() ==> 0 <= #[trigger] p[k].0 < a.len() && 0 <= p[k].1 < b.len()
    &&& forall|k: int| 0 <= k < p.len() ==> a[#[trigger] p[k].0] == b[p[k].1]
    &&& forall|k: int, l: int| 0 <= k < l < p.len() ==> #[trigger] p[k].0 < #[trigger] p[l].0 && p[k].1 < p[l].1
}

/// A common subsequence of `a[0..i)` and `b[0..j)` is no longer than either prefix.
pub proof fn lemma_lcs_length_bounds<T>(a: Seq<T>, b: Seq<T>, i: int, j: int)
    requires
        0 <= i,
        0 <= j,
    ensures
        0 <= lcs_length(a, b, i, j) <= i,
        lcs_length(a, b, i, j) <= j,
    decreases i + j,
{
    if i > 0 && j > 0 {
        lemma_lcs_length_bounds(a, b, i - 1, j - 1);
        lemma_lcs_length_bounds(a, b, i - 1, j);
        lemma_lcs_length_bounds(a, b, i, j - 1);
    }
}

/// The recovered subsequence is as long as the table's cell from which it is recovered.
pub proof fn lemma_lcs_pairs_length<T>(a: Seq<T>, b: Seq<T>, i: int, j: int)
    ensures
        lcs_pairs(a, b, i, j).len() == lcs_length(a, b, i, j),
    decreases i + j,
{
    if i > 0 && j > 0 {
        lemma_lcs_pairs_length(a, b, i - 1, j - 1);
        lemma_lcs_pairs_length(a, b, i - 1, j);
        lemma_lcs_pairs_length(a, b, i, j - 1);
    }
}

/// The recovered subsequence is strictly increasing in both indices, pairs equal
/// elements, and lies within `a[0..i)` and `b[0..j)`.
pub proof fn lemma_lcs_pairs_common<T>(a: Seq<T>, b: Seq<T>, i: int, j: int)
    requires
        0 <= i <= a.len(),
        0 <= j <= b.len(),
    ensures
        is_common_subsequence(a, b, lcs_pairs(a, b, i, j)),
        forall|k: int| 0 <= k < lcs_pairs(a, b, i, j).len() ==>
            #[trigger] lcs_pairs(a, b, i, j)[k].0 < i && lcs_pairs(a, b, i, j)[k].1 < j,
    decreases i + j,
{
    if i > 0 && j > 0 {
        if a[i - 1] == b[j - 1] {
            lemma_lcs_pairs_common(a, b, i - 1, j - 1);
            let p = lcs_pairs(a, b, i - 1, j - 1);
            let q = p.push((i - 1, j - 1));
            assert forall|k: int, l: int| 0 <= k < l < q.len() implies #[trigger] q[k].0 < #[trigger] q[l].0 && q[k].1 < q[l].1 by {
                if l == q.len() - 1 {
                    assert(q[k] == p[k]);
                } else {
                    assert(q[k] == p[k] && q[l] == p[l]);
                }
            }
            assert forall|k: int| 0 <= k < q.len() implies a[#[trigger] q[k].0] == b[q[k].1] by {
                if k < p.len() {
                    assert(q[k] == p[k]);
                }
            }
            assert forall|k: int| 0 <= k < q.len() implies 0 <= #[trigger] q[k].0 < a.len() && 0 <= q[k].1 < b.len() by {
                if k < p.len() {
                    assert(q[k] == p[k]);
                }
            }
        } else if lcs_length(a, b, i, j - 1) > lcs_length(a, b, i - 1, j) {
            lemma_lcs_pairs_common(a, b, i, j - 1);
        } else {
            lemma_lcs_pairs_common(a, b, i - 1, j);
        }
    }
}

/// Exec equality of two elements whose type compares by value.
fn elements_equal<T: PartialEq>(x: &T, y: &T) -> (r: bool)
    requires
        obeys_concrete_eq::<T>(),
    ensures
        r == (*x == *y),
{
    proof {
        reveal(obeys_concrete_eq);
    }
    x.eq(y)
}

/// One step of a diff between two sequences.
#[derive(Debug, PartialEq, Eq)]
pub enum DiffComponent<T> {
    Insertion(T),
    Unchanged(T, T),
    Deletion(T),
}

/// A table of longest-common-subsequence lengths between `a` and `b`:
/// `lengths[i][j]` is the length for `a[0..i)` and `b[0..j)`.
pub struct LcsTable<'a, T> {
    pub lengths: Vec<Vec<usize>>,
    pub a: &'a [T],
    pub b: &'a [T],
}

impl<'a, T: PartialEq> LcsTable<'a, T> {
    /// The table holds an `(n + 1) x (m + 1)` grid of the lengths of its two sequences.
    pub open spec fn wf(&self) -> bool {
        &&& self.lengths@.len() == self.a@.len() + 1
        &&& forall|i: int| 0 <= i < self.lengths@.len() ==> #[trigger] self.lengths@[i]@.len() == self.b@.len() + 1
        &&& forall|i: int, j: int| 0 <= i <= self.a@.len() && 0 <= j <= self.b@.len()
            ==> #[trigger] self.lengths@[i]@[j] as int == lcs_length(self.a@, self.b@, i, j)
    }

    /// Builds the table of lengths for `a` and `b` by the usual recurrence.
    pub fn new(a: &'a [T], b: &'a [T]) -> (t: LcsTable<'a, T>)
        requires
            obeys_concrete_eq::<T>(),
        ensures
            t.wf(),
            t.a@ == a@,
            t.b@ == b@,
    {
        let n = a.len();
        let m = b.len();
        let mut lengths: Vec<Vec<usize>> = Vec::new();
        let mut first: Vec<usize> = Vec::new();
        first.push(0);
        let mut j: usize = 0;
        while j < m
            invariant
                j <= m,
                m == b@.len(),
                first@.len() == j + 1,
                forall|jj: int| 0 <= jj <= j ==> #[trigger] first@[jj] == 0,
            decreases m - j,
        {
            first.push(0);
            j += 1;
        }
        lengths.push(first);
        let mut i: usize = 0;
        while i < n
            invariant
                n == a@.len(),
                m == b@.len(),
                i <= n,
                obeys_concrete_eq::<T>(),
                lengths@.len() == i + 1,
                forall|ii: int| 0 <= ii < lengths@.len() ==> #[trigger] lengths@[ii]@.len() == m + 1,
                forall|ii: int, jj: int| 0 <= ii <= i && 0 <= jj <= m
                    ==> #[trigger] lengths@[ii]@[jj] as int == lcs_length(a@, b@, ii, jj),
            decreases n - i,
        {
            let mut row: Vec<usize> = Vec::new();
            row.push(0);
            let mut j: usize = 0;
            while j < m
                invariant
                    n == a@.len(),
                    m == b@.len(),
                    i < n,
                    j <= m,
                    obeys_concrete_eq::<T>(),
                    lengths@.len() == i + 1,
                    forall|ii: int| 0 <= ii < lengths@.len() ==> #[trigger] lengths@[ii]@.len() == m + 1,
                    forall|ii: int, jj: int| 0 <= ii <= i && 0 <= jj <= m
                        ==> #[trigger] lengths@[ii]@[jj] as int == lcs_length(a@, b@, ii, jj),
                    row@.len() == j + 1,
                    forall|jj: int| 0 <= jj <= j ==> #[trigger] row@[jj] as int == lcs_length(a@, b@, i + 1, jj),
                decreases m - j,
            {
                let prev = &lengths[i];
                proof {
                    lemma_lcs_length_bounds(a@, b@, i as int, j as int);
                    assert(prev@[j as int] as int == lcs_length(a@, b@, i as int, j as int));
                    assert(prev@[j + 1] as int == lcs_length(a@, b@, i as int, j + 1));
                }
                let value: usize = if elements_equal(&a[i], &b[j]) {
                    1 + prev[j]
                } else {
                    let up = prev[j + 1];
                    let left = row[j];
                    if up >= left {
                        up
                    } else {
                        left
                    }
                };
                row.push(value);
                proof {
                    assert forall|jj: int| 0 <= jj <= j + 1 implies #[trigger] row@[jj] as int == lcs_length(a@, b@, i + 1, jj) by {
                    }
                }
                j += 1;
            }
            lengths.push(row);
            proof {
                assert forall|ii: int, jj: int| 0 <= ii <= i + 1 && 0 <= jj <= m
                    implies #[trigger] lengths@[ii]@[jj] as int == lcs_length(a@, b@, ii, jj) by {
                    if ii <= i {
                    }
                }
            }
            i += 1;
        }
        LcsTable { lengths, a, b }
    }

    /// The longest common subsequence recovered by backtracking from the last cell,
    /// as elements of `a` with their indices in `a` and in `b`.
    pub fn longest_common_subsequence(&self) -> (r: Vec<(&'a T, (usize, usize))>)
        requires
            self.wf(),
            obeys_concrete_eq::<T>(),
        ensures
            pair_indices(r@) == lcs_pairs(self.a@, self.b@, self.a@.len() as int, self.b@.len() as int),
            forall|k: int| 0 <= k < r@.len() ==> *(#[trigger] r@[k]).0 == self.a@[r@[k].1.0 as int],
    {
        self.find_lcs(self.a.len(), self.b.len())
    }

    fn find_lcs(&self, i: usize, j: usize) -> (r: Vec<(&'a T, (usize, usize))>)
        requires
            self.wf(),
            obeys_concrete_eq::<T>(),
            i <= self.a@.len(),
            j <= self.b@.len(),
        ensures
            pair_indices(r@) == lcs_pairs(self.a@, self.b@, i as int, j as int),
            forall|k: int| 0 <= k < r@.len() ==> *(#[trigger] r@[k]).0 == self.a@[r@[k].1.0 as int],
        decreases i + j,
    {
        if i == 0 || j == 0 {
            return Vec::new();
        }
        if elements_equal(&self.a[i - 1], &self.b[j - 1]) {
            let mut prefix = self.find_lcs(i - 1, j - 1);
            let ghost old_prefix = prefix@;
            prefix.push((&self.a[i - 1], (i - 1, j - 1)));
            proof {
                assert(pair_indices(prefix@) =~= pair_indices(old_prefix).push(((i - 1) as int, (j - 1) as int)));
            }
            prefix
        } else {
            if self.lengths[i][j - 1] > self.lengths[i - 1][j] {
                self.find_lcs(i, j - 1)
            } else {
                self.find_lcs(i - 1, j)
            }
        }
    }
}

/// Every cell of a built table obeys the recurrence, and the subsequence recovered
/// from the last cell is as long as that cell says.
pub proof fn lemma_table_recurrence<T: PartialEq>(t: &LcsTable<T>)
    requires
        t.wf(),
    ensures
        forall|i: int| 0 <= i <= t.a@.len() ==> #[trigger] t.lengths@[i]@[0] == 0,
        forall|j: int| 0 <= j <= t.b@.len() ==> #[trigger] t.lengths@[0]@[j] == 0,
        forall|i: int, j: int| 1 <= i <= t.a@.len() && 1 <= j <= t.b@.len() ==> #[trigger] t.lengths@[i]@[j] as int == if t.a@[i - 1] == t.b@[j - 1] {
            1 + t.lengths@[i - 1]@[j - 1]
        } else if t.lengths@[i - 1]@[j] >= t.lengths@[i]@[j - 1] {
            t.lengths@[i - 1]@[j] as int
        } else {
            t.lengths@[i]@[j - 1] as int
        },
        lcs_pairs(t.a@, t.b@, t.a@.len() as int, t.b@.len() as int).len()
            == t.lengths@[t.a@.len() as int]@[t.b@.len() as int],
{
    assert forall|i: int, j: int| 1 <= i <= t.a@.len() && 1 <= j <= t.b@.len() implies #[trigger] t.lengths@[i]@[j] as int == if t.a@[i - 1] == t.b@[j - 1] {
        1 + t.lengths@[i - 1]@[j - 1]
    } else if t.lengths@[i - 1]@[j] >= t.lengths@[i]@[j - 1] {
        t.lengths@[i - 1]@[j] as int
    } else {
        t.lengths@[i]@[j - 1] as int
    } by {
        assert(t.lengths@[i - 1]@[j - 1] as int == lcs_length(t.a@, t.b@, i - 1, j - 1));
        assert(t.lengths@[i - 1]@[j] as int == lcs_length(t.a@, t.b@, i - 1, j));
        assert(t.lengths@[i]@[j - 1] as int == lcs_length(t.a@, t.b@, i, j - 1));
    }
    assert forall|i: int| 0 <= i <= t.a@.len() implies #[trigger] t.lengths@[i]@[0] == 0 by {
        assert(t.lengths@[i]@[0] as int == lcs_length(t.a@, t.b@, i, 0));
    }
    assert forall|j: int| 0 <= j <= t.b@.len() implies #[trigger] t.lengths@[0]@[j] == 0 by {
        assert(t.lengths@[0]@[j] as int == lcs_length(t.a@, t.b@, 0, j));
    }
    lemma_lcs_pairs_length(t.a@, t.b@, t.a@.len() as int, t.b@.len() as int);
    assert(t.lengths@[t.a@.len() as int]@[t.b@.len() as int] as int
        == lcs_length(t.a@, t.b@, t.a@.len() as int, t.b@.len() as int));
}

} // verus!
