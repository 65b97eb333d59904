use vstd::prelude::*;

use crate::game::MAX_BOXES;

verus! {

/// A matrix that the assignment algorithm can read.
pub trait Matrix<T> {
    spec fn spec_shape(&self) -> (int, int);

    spec fn spec_get(&self, row: int, col: int) -> T;

    /// Every entry of the shape can be read.
    spec fn spec_ready(&self) -> bool;

    fn get(&self, row: usize, col: usize) -> (r: T)
        requires
            self.spec_ready(),
            row < self.spec_shape().0,
            col < self.spec_shape().1,
        ensures
            r == self.spec_get(row as int, col as int),
    ;

    fn shape(&self) -> (r: (usize, usize))
        ensures
            r.0 == self.spec_shape().0,
            r.1 == self.spec_shape().1,
    ;
}

impl<T: Copy, const N: usize, const M: usize> Matrix<T> for [[T; M]; N] {
    open spec fn spec_shape(&self) -> (int, int) {
        (N as int, M as int)
    }

    open spec fn spec_get(&self, row: int, col: int) -> T {
        self@[row]@[col]
    }

    open spec fn spec_ready(&self) -> bool {
        true
    }

    fn get(&self, row: usize, col: usize) -> (r: T) {
        self[row][col]
    }

    fn shape(&self) -> (r: (usize, usize)) {
        (N, M)
    }
}

/// A matrix stored row by row, filled by pushing its entries in order.
pub struct ArrayMatrix<T, const CAP: usize> {
    data: Vec<T>,
    rows: usize,
    cols: usize,
}

impl<T: Copy, const CAP: usize> ArrayMatrix<T, CAP> {
    /// The entries pushed so far, row by row.
    pub closed spec fn entries(&self) -> Seq<T> {
        self.data@
    }

    pub closed spec fn spec_rows(&self) -> int {
        self.rows as int
    }

    pub closed spec fn spec_cols(&self) -> int {
        self.cols as int
    }

    pub fn new(rows: usize, cols: usize) -> (r: Self)
        ensures
            r.entries() == Seq::<T>::empty(),
            r.spec_rows() == rows,
            r.spec_cols() == cols,
    {
        ArrayMatrix { data: Vec::new(), rows, cols }
    }

    pub fn push(&mut self, item: T)
        requires
            old(self).entries().len() < old(self).spec_rows() * old(self).spec_cols(),
            old(self).entries().len() < CAP,
        ensures
            final(self).entries() == old(self).entries().push(item),
            final(self).spec_rows() == old(self).spec_rows(),
            final(self).spec_cols() == old(self).spec_cols(),
    {
        self.data.push(item);
    }
}

impl<T: Copy, const CAP: usize> Matrix<T> for ArrayMatrix<T, CAP> {
    open spec fn spec_shape(&self) -> (int, int) {
        (self.spec_rows(), self.spec_cols())
    }

    open spec fn spec_get(&self, row: int, col: int) -> T {
        self.entries()[row * self.spec_cols() + col]
    }

    open spec fn spec_ready(&self) -> bool {
        self.entries().len() == self.spec_rows() * self.spec_cols()
    }

    fn get(&self, row: usize, col: usize) -> (r: T) {
        let len = self.data.len();
        let rows = self.rows;
        let cols = self.cols;
        proof {
            assert(row * cols + col < rows * cols) by (nonlinear_arith)
                requires
                    row < rows,
                    col < cols,
            {
                assert((row + 1) * cols <= rows * cols);
            }
            assert(row * cols <= row * cols + col);
        }
        self.data[row * cols + col]
    }

    fn shape(&self) -> (r: (usize, usize)) {
        (self.rows, self.cols)
    }
}

/// The entry of row `r` and column `j`, both counted from 1.
pub open spec fn entry<A: Matrix<u16>>(a: &A, r: int, j: int) -> int {
    a.spec_get(r - 1, j - 1) as int
}

/// The sum of the first `k` values.
pub open spec fn isum(s: Seq<i32>, k: int) -> int
    decreases k,
{
    if k <= 0 {
        0
    } else {
        isum(s, k - 1) + s[k - 1]
    }
}

/// Row potentials `u` and column potentials `v` (from 1) that no entry of
/// the `n` by `n` matrix undercuts.
pub open spec fn feasible<A: Matrix<u16>>(a: &A, u: Seq<i32>, v: Seq<i32>, n: int) -> bool {
    forall|r: int, j: int| 1 <= r <= n && 1 <= j <= n ==> u[r] + v[j] <= #[trigger] entry(a, r, j)
}

/// Columns `1..=m` hold distinct rows below `i`, or none (0).
pub open spec fn matching_below(p: Seq<usize>, i: int, m: int) -> bool {
    &&& forall|j: int| 1 <= j <= m ==> #[trigger] p[j] < i
    &&& forall|j1: int, j2: int|
        1 <= j1 <= m && 1 <= j2 <= m && j1 != j2 && #[trigger] p[j1] != 0 ==> p[j1] != #[trigger] p[j2]
}

/// Row `r` is held by one of columns `1..=m`.
pub open spec fn row_held(p: Seq<usize>, r: int, m: int) -> bool {
    exists|j: int| 1 <= j <= m && p[j] == r
}

/// Row `r` is held by one of columns `0..=m` other than `x`.
pub open spec fn held_except(p: Seq<usize>, r: int, x: int, m: int) -> bool {
    exists|j: int| 0 <= j <= m && j != x && p[j] == r
}

/// One of the first `k` columns is used and holds row `r`.
pub open spec fn bumped(used: Seq<bool>, p: Seq<usize>, r: int, k: int) -> bool
    decreases k,
{
    if k <= 0 {
        false
    } else {
        bumped(used, p, r, k - 1) || (used[k - 1] && p[k - 1] == r)
    }
}

/// Each of `n` rows takes its own one of `n` columns: `s[r]` is row `r`'s.
pub open spec fn is_assignment(s: Seq<int>, n: int) -> bool {
    &&& s.len() == n
    &&& s.no_duplicates()
    &&& forall|r: int| 0 <= r < n ==> 0 <= #[trigger] s[r] < n
    &&& forall|j: int| 0 <= j < n ==> s.contains(j)
}

/// The total of the entries that the assignment `s` takes in its first `k`
/// rows.
pub open spec fn assignment_cost<A: Matrix<u16>>(a: &A, s: Seq<int>, k: int) -> int
    decreases k,
{
    if k <= 0 {
        0
    } else {
        assignment_cost(a, s, k - 1) + a.spec_get(k - 1, s[k - 1]) as int
    }
}

/// The sum of `f` over the members of `s` below `m`.
pub open spec fn int_set_total(f: spec_fn(int) -> int, s: Set<int>, m: int) -> int
    decreases m,
{
    if m <= 0 {
        0
    } else {
        int_set_total(f, s, m - 1) + if s.contains(m - 1) {
            f(m - 1)
        } else {
            0
        }
    }
}

/// The column potentials that the first `k` rows of an assignment take.
pub open spec fn along(v: Seq<i32>, s: Seq<int>, k: int) -> int
    decreases k,
{
    if k <= 0 {
        0
    } else {
        along(v, s, k - 1) + v[s[k - 1] + 1]
    }
}

proof fn lemma_isum_update(s: Seq<i32>, k: int, t: int, x: i32)
    requires
        0 <= t < s.len(),
        k <= s.len(),
    ensures
        isum(s.update(t, x), k) == isum(s, k) + if t < k {
            x - s[t]
        } else {
            0
        },
    decreases k,
{
    if k > 0 {
        lemma_isum_update(s, k - 1, t, x);
    }
}

proof fn lemma_isum_zero(s: Seq<i32>, k: int)
    requires
        k <= s.len(),
        forall|t: int| 0 <= t < k ==> s[t] == 0,
    ensures
        isum(s, k) == 0,
    decreases k,
{
    if k > 0 {
        lemma_isum_zero(s, k - 1);
    }
}

proof fn lemma_int_set_total_insert(f: spec_fn(int) -> int, s: Set<int>, x: int, m: int)
    requires
        !s.contains(x),
        0 <= x < m,
    ensures
        int_set_total(f, s.insert(x), m) == int_set_total(f, s, m) + f(x),
    decreases m,
{
    if m - 1 > x {
        lemma_int_set_total_insert(f, s, x, m - 1);
    } else {
        lemma_int_set_total_same(f, s.insert(x), s, m - 1);
    }
}

proof fn lemma_int_set_total_same(f: spec_fn(int) -> int, s1: Set<int>, s2: Set<int>, m: int)
    requires
        forall|i: int| 0 <= i < m ==> (s1.contains(i) <==> s2.contains(i)),
    ensures
        int_set_total(f, s1, m) == int_set_total(f, s2, m),
    decreases m,
{
    if m > 0 {
        lemma_int_set_total_same(f, s1, s2, m - 1);
    }
}

/// The first `k` rows of an assignment take the potentials of the columns
/// they hold, each once.
proof fn lemma_along_image(v: Seq<i32>, s: Seq<int>, n: int, k: int)
    requires
        is_assignment(s, n),
        0 <= k <= n,
    ensures
        along(v, s, k) == int_set_total(
            |j: int| v[j + 1] as int,
            Set::new(|j: int| exists|r: int| 0 <= r < k && s[r] == j),
            n,
        ),
    decreases k,
{
    let f = |j: int| v[j + 1] as int;
    if k == 0 {
        lemma_int_set_total_same(f, Set::new(|j: int| exists|r: int| 0 <= r < k && s[r] == j), Set::empty(), n);
        lemma_int_set_total_empty(f, n);
    } else {
        lemma_along_image(v, s, n, k - 1);
        let prev = Set::new(|j: int| exists|r: int| 0 <= r < k - 1 && s[r] == j);
        let cur = Set::new(|j: int| exists|r: int| 0 <= r < k && s[r] == j);
        assert(!prev.contains(s[k - 1])) by {
            if prev.contains(s[k - 1]) {
                let r = choose|r: int| 0 <= r < k - 1 && #[trigger] s[r] == s[k - 1];
                assert(s[r] == s[k - 1]);
            }
        }
        assert(cur =~= prev.insert(s[k - 1])) by {
            assert forall|j: int| cur.contains(j) implies prev.insert(s[k - 1]).contains(j) by {
                let r = choose|r: int| 0 <= r < k && s[r] == j;
                if r < k - 1 {
                    assert(prev.contains(j));
                }
            }
            assert forall|j: int| prev.insert(s[k - 1]).contains(j) implies cur.contains(j) by {
                if j == s[k - 1] {
                    assert(0 <= k - 1 < k && s[k - 1] == j);
                } else {
                    let r = choose|r: int| 0 <= r < k - 1 && s[r] == j;
                    assert(0 <= r < k && s[r] == j);
                }
            }
        }
        lemma_int_set_total_insert(f, prev, s[k - 1], n);
    }
}

proof fn lemma_int_set_total_empty(f: spec_fn(int) -> int, m: int)
    ensures
        int_set_total(f, Set::empty(), m) == 0,
    decreases m,
{
    if m > 0 {
        lemma_int_set_total_empty(f, m - 1);
    }
}

/// Over all columns the total is the sum of the potentials past the first.
proof fn lemma_int_set_total_full(v: Seq<i32>, m: int)
    requires
        0 <= m,
        m + 1 <= v.len(),
    ensures
        int_set_total(|j: int| v[j + 1] as int, Set::new(|j: int| 0 <= j < m), m) == isum(v, m + 1) - v[0],
    decreases m,
{
    let f = |j: int| v[j + 1] as int;
    if m > 0 {
        lemma_int_set_total_full(v, m - 1);
        lemma_int_set_total_same(f, Set::new(|j: int| 0 <= j < m), Set::new(|j: int| 0 <= j < m - 1), m - 1);
        assert(Set::new(|j: int| 0 <= j < m).contains(m - 1));
        assert(f(m - 1) == v[m]);
        assert(int_set_total(f, Set::new(|j: int| 0 <= j < m), m) == int_set_total(
            f,
            Set::new(|j: int| 0 <= j < m),
            m - 1,
        ) + f(m - 1));
    } else {
        assert(isum(v, 0) == 0);
        assert(isum(v, 1) == v[0]);
    }
}

/// Along an assignment, each entry is at least the potentials of its row and
/// column.
proof fn lemma_cost_ge<A: Matrix<u16>>(a: &A, u: Seq<i32>, v: Seq<i32>, s: Seq<int>, n: int, k: int)
    requires
        is_assignment(s, n),
        feasible(a, u, v, n),
        0 <= k <= n,
        u.len() == n + 1,
        v.len() == n + 1,
    ensures
        assignment_cost(a, s, k) >= isum(u, k + 1) - u[0] + along(v, s, k),
    decreases k,
{
    if k > 0 {
        lemma_cost_ge(a, u, v, s, n, k - 1);
        assert(0 <= s[k - 1] < n);
        assert(a.spec_get(k - 1, s[k - 1]) as int == entry(a, k, s[k - 1] + 1));
        assert(u[k] + v[s[k - 1] + 1] <= entry(a, k, s[k - 1] + 1));
    } else {
        assert(isum(u, 0) == 0);
        assert(isum(u, 1) == u[0]);
    }
}

/// Potentials that no entry undercuts bound the total of every assignment
/// from below by their own total.
pub proof fn lemma_dual_bound<A: Matrix<u16>>(a: &A, u: Seq<i32>, v: Seq<i32>, s: Seq<int>, n: int)
    requires
        is_assignment(s, n),
        feasible(a, u, v, n),
        u.len() == n + 1,
        v.len() == n + 1,
    ensures
        assignment_cost(a, s, n) >= isum(u, n + 1) - u[0] + isum(v, n + 1) - v[0],
{
    lemma_cost_ge(a, u, v, s, n, n);
    lemma_along_image(v, s, n, n);
    let img = Set::new(|j: int| exists|r: int| 0 <= r < n && s[r] == j);
    assert forall|j: int| 0 <= j < n implies (img.contains(j) <==> Set::new(|j: int| 0 <= j < n).contains(j)) by {
        assert(s.contains(j));
        let r = choose|r: int| 0 <= r < s.len() && s[r] == j;
        assert(img.contains(j));
    }
    lemma_int_set_total_same(|j: int| v[j + 1] as int, img, Set::new(|j: int| 0 <= j < n), n);
    lemma_int_set_total_full(v, n);
}

/// Along an assignment that takes, in each row, an entry equal to the
/// potentials of its row and column, the total is the potentials' total.
proof fn lemma_cost_eq<A: Matrix<u16>>(a: &A, u: Seq<i32>, v: Seq<i32>, s: Seq<int>, n: int, k: int)
    requires
        is_assignment(s, n),
        forall|r: int| 0 <= r < n ==> u[r + 1] + v[#[trigger] s[r] + 1] == entry(a, r + 1, s[r] + 1),
        0 <= k <= n,
        u.len() == n + 1,
        v.len() == n + 1,
    ensures
        assignment_cost(a, s, k) == isum(u, k + 1) - u[0] + along(v, s, k),
    decreases k,
{
    if k > 0 {
        lemma_cost_eq(a, u, v, s, n, k - 1);
        assert(0 <= s[k - 1] < n);
        assert(a.spec_get(k - 1, s[k - 1]) as int == entry(a, k, s[k - 1] + 1));
        assert(u[k] + v[s[k - 1] + 1] == entry(a, k, s[k - 1] + 1));
    } else {
        assert(isum(u, 0) == 0);
        assert(isum(u, 1) == u[0]);
    }
}

/// A matching of all `n` rows to columns, each of whose entries equals the
/// potentials of its row and column, is an assignment whose total is the
/// potentials' total.
proof fn lemma_matching_attains<A: Matrix<u16>>(a: &A, u: Seq<i32>, v: Seq<i32>, p: Seq<usize>, n: int)
    requires
        0 <= n,
        u.len() == n + 1,
        v.len() == n + 1,
        p.len() == n + 1,
        forall|j: int| 1 <= j <= n ==> #[trigger] p[j] <= n,
        forall|j1: int, j2: int|
            1 <= j1 <= n && 1 <= j2 <= n && j1 != j2 && #[trigger] p[j1] != 0 ==> p[j1] != #[trigger] p[j2],
        forall|r: int| 1 <= r <= n ==> #[trigger] row_held(p, r, n),
        forall|j: int| 1 <= j <= n && #[trigger] p[j] != 0 ==> u[p[j] as int] + v[j] == entry(a, p[j] as int, j),
    ensures
        exists|s: Seq<int>| is_assignment(s, n) && #[trigger] assignment_cost(a, s, n) == isum(u, n + 1) - u[0]
            + isum(v, n + 1) - v[0],
{
    let s = Seq::new(n as nat, |r: int| (choose|j: int| 1 <= j <= n && p[j] == r + 1) - 1);
    assert forall|r: int| 0 <= r < n implies 0 <= #[trigger] s[r] < n && p[s[r] + 1] == r + 1 by {
        assert(row_held(p, r + 1, n));
    }
    assert(s.no_duplicates()) by {
        assert forall|r1: int, r2: int| 0 <= r1 < s.len() && 0 <= r2 < s.len() && r1 != r2 implies s[r1] != s[r2] by {
            assert(p[s[r1] + 1] == r1 + 1);
            assert(p[s[r2] + 1] == r2 + 1);
        }
    }
    assert forall|j: int| 0 <= j < n implies s.contains(j) by {
        s.unique_seq_to_set();
        vstd::set_lib::lemma_int_range(0, n);
        assert(s.to_set().subset_of(vstd::set_lib::set_int_range(0, n))) by {
            assert forall|x: int| s.to_set().contains(x) implies vstd::set_lib::set_int_range(0, n).contains(x) by {
                let r = choose|r: int| 0 <= r < s.len() && s[r] == x;
                assert(0 <= s[r] < n);
            }
        }
        vstd::set_lib::lemma_subset_equality(s.to_set(), vstd::set_lib::set_int_range(0, n));
        assert(vstd::set_lib::set_int_range(0, n).contains(j));
        assert(s.to_set().contains(j));
    }
    assert(is_assignment(s, n));
    assert forall|r: int| 0 <= r < n implies u[r + 1] + v[#[trigger] s[r] + 1] == entry(a, r + 1, s[r] + 1) by {
        let j = s[r] + 1;
        assert(p[j] == r + 1);
        assert(p[j] != 0);
    }
    lemma_cost_eq(a, u, v, s, n, n);
    lemma_along_image(v, s, n, n);
    let img = Set::new(|j: int| exists|r: int| 0 <= r < n && s[r] == j);
    assert forall|j: int| 0 <= j < n implies (img.contains(j) <==> Set::new(|j: int| 0 <= j < n).contains(j)) by {
        assert(s.contains(j));
        let r = choose|r: int| 0 <= r < s.len() && s[r] == j;
        assert(img.contains(j));
    }
    lemma_int_set_total_same(|j: int| v[j + 1] as int, img, Set::new(|j: int| 0 <= j < n), n);
    lemma_int_set_total_full(v, n);
    assert(assignment_cost(a, s, n) == isum(u, n + 1) - u[0] + isum(v, n + 1) - v[0]);
}

/// Distinct rows below `i <= m` cannot fill all `m` columns: one is free.
proof fn lemma_free_column(p: Seq<usize>, i: int, m: int)
    requires
        1 <= i <= m,
        p.len() == m + 1,
        matching_below(p, i, m),
    ensures
        exists|j: int| 1 <= j <= m && #[trigger] p[j] == 0,
{
    if forall|j: int| 1 <= j <= m ==> #[trigger] p[j] != 0 {
        let q = Seq::new(m as nat, |k: int| p[k + 1] as int);
        assert(q.no_duplicates()) by {
            assert forall|k1: int, k2: int| 0 <= k1 < q.len() && 0 <= k2 < q.len() && k1 != k2 implies q[k1]
                != q[k2] by {
                assert(p[k1 + 1] != 0);
                assert(p[k1 + 1] != p[k2 + 1]);
            }
        }
        q.unique_seq_to_set();
        vstd::set_lib::lemma_int_range(1, i);
        assert(q.to_set().subset_of(vstd::set_lib::set_int_range(1, i))) by {
            assert forall|x: int| q.to_set().contains(x) implies vstd::set_lib::set_int_range(1, i).contains(x) by {
                let k = choose|k: int| 0 <= k < q.len() && q[k] == x;
                assert(p[k + 1] != 0);
                assert(p[k + 1] < i);
            }
        }
        vstd::set_lib::lemma_len_subset(q.to_set(), vstd::set_lib::set_int_range(1, i));
        assert(false);
    }
}

/// How many of the first `k` flags are set.
pub open spec fn count_set(s: Seq<bool>, k: int) -> int
    decreases k,
{
    if k <= 0 {
        0
    } else {
        count_set(s, k - 1) + if s[k - 1] {
            1int
        } else {
            0
        }
    }
}

proof fn lemma_count_set_update(s: Seq<bool>, k: int, x: int)
    requires
        0 <= x < k <= s.len(),
        !s[x],
    ensures
        count_set(s.update(x, true), k) == count_set(s, k) + 1,
    decreases k,
{
    if k - 1 > x {
        lemma_count_set_update(s, k - 1, x);
    } else {
        lemma_count_set_same(s.update(x, true), s, k - 1);
    }
}

proof fn lemma_count_set_same(s1: Seq<bool>, s2: Seq<bool>, k: int)
    requires
        k <= s1.len(),
        k <= s2.len(),
        forall|t: int| 0 <= t < k ==> s1[t] == s2[t],
    ensures
        count_set(s1, k) == count_set(s2, k),
    decreases k,
{
    if k > 0 {
        lemma_count_set_same(s1, s2, k - 1);
    }
}

/// With one flag among the first `k` unset, fewer than `k` are set.
proof fn lemma_count_set_below(s: Seq<bool>, k: int, x: int)
    requires
        0 <= x < k <= s.len(),
        !s[x],
    ensures
        count_set(s, k) <= k - 1,
    decreases k,
{
    if k - 1 > x {
        lemma_count_set_below(s, k - 1, x);
    } else {
        lemma_count_set_le(s, k - 1);
    }
}

proof fn lemma_cost_nonneg<A: Matrix<u16>>(a: &A, s: Seq<int>, k: int)
    ensures
        assignment_cost(a, s, k) >= 0,
    decreases k,
{
    if k > 0 {
        lemma_cost_nonneg(a, s, k - 1);
    }
}

proof fn lemma_count_set_none(s: Seq<bool>, k: int)
    requires
        0 <= k <= s.len(),
        forall|t: int| 0 <= t < k ==> !s[t],
    ensures
        count_set(s, k) == 0,
    decreases k,
{
    if k > 0 {
        lemma_count_set_none(s, k - 1);
    }
}

proof fn lemma_count_set_le(s: Seq<bool>, k: int)
    requires
        0 <= k <= s.len(),
    ensures
        count_set(s, k) <= k,
    decreases k,
{
    if k > 0 {
        lemma_count_set_le(s, k - 1);
    }
}

/// Row potentials between 0 and `u16::MAX` past the first add up to at
/// most that many times `u16::MAX`; column potentials between `-u16::MAX`
/// and 0 likewise.
proof fn lemma_isum_bounds(s: Seq<i32>, k: int, lo: int, hi: int)
    requires
        1 <= k <= s.len(),
        lo == 0 || lo == -65535,
        hi == 0 || hi == 65535,
        forall|t: int| 1 <= t < k ==> lo <= #[trigger] s[t] <= hi,
    ensures
        (k - 1) * lo <= isum(s, k) - s[0] <= (k - 1) * hi,
    decreases k,
{
    if k > 1 {
        lemma_isum_bounds(s, k - 1, lo, hi);
        assert((k - 1) * lo == (k - 2) * lo + lo) by (nonlinear_arith);
        assert((k - 1) * hi == (k - 2) * hi + hi) by (nonlinear_arith);
    } else {
        assert(isum(s, 0) == 0);
        assert(isum(s, 1) == s[0]);
    }
}

/// A bumped row is held by some used column.
proof fn lemma_bumped_has(used: Seq<bool>, p: Seq<usize>, r: int, k: int)
    requires
        bumped(used, p, r, k),
    ensures
        exists|c: int| 0 <= c < k && used[c] && p[c] == r,
    decreases k,
{
    if !(used[k - 1] && p[k - 1] == r) {
        lemma_bumped_has(used, p, r, k - 1);
        let c = choose|c: int| 0 <= c < k - 1 && used[c] && p[c] == r;
        assert(0 <= c < k && used[c] && p[c] == r);
    }
}

proof fn lemma_bumped_by(used: Seq<bool>, p: Seq<usize>, r: int, c: int, k: int)
    requires
        0 <= c < k,
        used[c],
        p[c] == r,
    ensures
        bumped(used, p, r, k),
    decreases k,
{
    if c < k - 1 {
        lemma_bumped_by(used, p, r, c, k - 1);
    }
}

/// Minimum total cost of an assignment of the rows of a square matrix to its
/// columns, one column per row (Andrey Lopatin's formulation of the Hungarian
/// algorithm). A total that does not fit in `u16` comes out as `u16::MAX`.
/// The result is the total of row and column potentials that no entry
/// undercuts, so below `u16::MAX` it bounds every assignment from below; the
/// final matching, each of whose entries equals its row's and column's
/// potentials, attains it. `u16::MAX` comes exactly when every assignment
/// costs at least that much.
#[verifier::rlimit(40)]
pub fn hungarian_algorithm<A: Matrix<u16>>(a: &A) -> (r: u16)
    requires
        a.spec_ready(),
        a.spec_shape().0 == a.spec_shape().1,
        a.spec_shape().0 <= MAX_BOXES,
    ensures
        r < u16::MAX ==> forall|s: Seq<int>|
            is_assignment(s, a.spec_shape().0) ==> r <= #[trigger] assignment_cost(a, s, a.spec_shape().0),
        r < u16::MAX ==> exists|s: Seq<int>|
            is_assignment(s, a.spec_shape().0) && #[trigger] assignment_cost(a, s, a.spec_shape().0) == r,
        r == u16::MAX ==> forall|s: Seq<int>|
            is_assignment(s, a.spec_shape().0) ==> #[trigger] assignment_cost(a, s, a.spec_shape().0) >= u16::MAX,
        a.spec_shape().0 == 0 ==> r == 0,
{
    let inf: i32 = 65536;
    let (n, m) = a.shape();
    if n == 0 {
        proof {
            let s0 = Seq::<int>::empty();
            assert(is_assignment(s0, 0));
            assert(assignment_cost(a, s0, 0) == 0);
        }
        return 0;
    }
    // Arrays are indexed from 1; index 0 is a dummy column.
    let mut u = new_buffer(n, 0i32);
    let mut v = new_buffer(m, 0i32);
    let mut p = new_buffer(m, 0usize);
    let mut way = new_buffer(m, 0usize);
    proof {
        lemma_isum_zero(u@, n + 1);
        lemma_isum_zero(v@, m + 1);
        assert(feasible(a, u@, v@, n as int)) by {
            assert forall|r: int, j: int| 1 <= r <= n && 1 <= j <= n implies u@[r] + v@[j] <= #[trigger] entry(a, r, j) by {
            }
        }
    }
    let mut i: usize = 1;
    while i <= n
        invariant
            inf == 65536,
            n == m,
            n >= 1,
            a.spec_shape().0 == n as int,
            m <= MAX_BOXES,
            a.spec_ready(),
            a.spec_shape() == (n as int, m as int),
            1 <= i <= n + 1,
            u@.len() == n + 1,
            v@.len() == m + 1,
            p@.len() == m + 1,
            way@.len() == m + 1,
            forall|j: int| 0 <= j <= m ==> p@[j] <= n,
            forall|j: int| 0 <= j <= m ==> way@[j] <= m,
            forall|j: int| 1 <= j <= m ==> #[trigger] way@[j] != j,
            matching_below(p@, i as int, m as int),
            feasible(a, u@, v@, n as int),
            u@[0] == 0,
            isum(u@, n + 1) + isum(v@, m + 1) == 0,
            forall|j: int| 1 <= j <= m && #[trigger] p@[j] != 0 ==> u@[p@[j] as int] + v@[j] == entry(
                a,
                p@[j] as int,
                j,
            ),
            forall|r: int| 1 <= r < i ==> #[trigger] row_held(p@, r, m as int),
            forall|j: int| 1 <= j <= m && #[trigger] p@[j] == 0 ==> v@[j] == 0,
            forall|r: int| i <= r <= n ==> #[trigger] u@[r] == 0,
            forall|r: int| 0 <= r <= n ==> 0 <= #[trigger] u@[r] <= 65535,
            forall|k: int| 1 <= k <= m ==> -65535 <= #[trigger] v@[k] <= 0,
        decreases n + 1 - i,
    {
        let ghost p_prev = p@;
        p.set(0, i);
        let ghost pp = p@;
        proof {
            assert forall|r: int| 1 <= r < i implies #[trigger] row_held(pp, r, m as int) by {
                assert(row_held(p_prev, r, m as int));
                let j = choose|j: int| 1 <= j <= m && p_prev[j] == r;
                assert(pp[j] == r);
            }
        }
        let mut j0: usize = 0;
        let mut minv = new_buffer(m, inf);
        let mut used = new_buffer(m, false);
        let mut steps: usize = 0;
        let ghost mut ord: Seq<int> = Seq::new((m + 1) as nat, |k: int| 0int);
        proof {
            assert forall|j: int| 1 <= j <= m && !#[trigger] used@[j] implies minv@[j] >= 0 by {
                assert(minv@[j] == inf);
            }
            lemma_free_column(pp, i as int, m as int);
            lemma_count_set_none(used@, m + 1);
        }
        let ghost jz: int = choose|j: int| 1 <= j <= m && #[trigger] pp[j] == 0;
        loop
            invariant_except_break
                p@[j0 as int] >= 1,
            invariant
                inf == 65536,
                n == m,
                n >= 1,
                a.spec_shape().0 == n as int,
                m <= MAX_BOXES,
                a.spec_ready(),
                a.spec_shape() == (n as int, m as int),
                1 <= i <= n,
                u@.len() == n + 1,
                v@.len() == m + 1,
                p@.len() == m + 1,
                way@.len() == m + 1,
                minv@.len() == m + 1,
                used@.len() == m + 1,
                forall|j: int| 0 <= j <= m ==> p@[j] <= n,
                forall|j: int| 0 <= j <= m ==> way@[j] <= m,
                forall|j: int| 1 <= j <= m ==> #[trigger] way@[j] != j,
                j0 <= m,
                steps <= m + 1,
                p@ == pp,
                pp[0] == i,
                matching_below(pp, i as int, m as int),
                forall|j: int| 0 <= j <= m && #[trigger] used@[j] ==> p@[j] >= 1,
                feasible(a, u@, v@, n as int),
                u@[0] == 0,
                isum(u@, n + 1) + isum(v@, m + 1) == 0,
                forall|j: int| 1 <= j <= m && !#[trigger] used@[j] ==> minv@[j] >= 0,
                forall|j: int, c: int|
                    #![trigger used@[j], used@[c]]
                    1 <= j <= m && 0 <= c <= m && !used@[j] && used@[c] ==> minv@[j] <= entry(
                        a,
                        p@[c] as int,
                        j,
                    ) - u@[p@[c] as int] - v@[j],
                ord.len() == m + 1,
                forall|k: int| 0 <= k <= m && #[trigger] used@[k] ==> 0 <= ord[k] < steps,
                forall|k: int| 1 <= k <= m && #[trigger] used@[k] ==> ord[k] >= 1,
                used@[0] ==> ord[0] == 0,
                steps > 0 ==> used@[0],
                1 <= jz <= m,
                pp[jz] == 0,
                forall|j: int| 1 <= j <= m && #[trigger] p@[j] != 0 ==> u@[p@[j] as int] + v@[j] == entry(
                    a,
                    p@[j] as int,
                    j,
                ),
                forall|k: int| 1 <= k <= m && #[trigger] used@[k] ==> used@[way@[k] as int] && ord[way@[k] as int] < ord[k]
                    && u@[p@[way@[k] as int] as int] + v@[k] == entry(a, p@[way@[k] as int] as int, k),
                forall|k: int| 1 <= k <= m && !#[trigger] used@[k] ==> minv@[k] + u@[i as int] == inf || (used@[way@[k] as int]
                    && minv@[k] == entry(a, p@[way@[k] as int] as int, k) - u@[p@[way@[k] as int] as int] - v@[k]),
                1 <= j0 && !used@[j0 as int] ==> minv@[j0 as int] == 0 && used@[way@[j0 as int] as int] && u@[p@[way@[
                    j0 as int] as int] as int] + v@[j0 as int] == entry(a, p@[way@[j0 as int] as int] as int, j0 as int),
                forall|j: int| 1 <= j <= m && #[trigger] p@[j] == 0 ==> v@[j] == 0,
                forall|r: int| i < r <= n ==> #[trigger] u@[r] == 0,
                forall|r: int| 0 <= r <= n ==> 0 <= #[trigger] u@[r] <= 65535,
                forall|k: int| 1 <= k <= m ==> -65535 <= #[trigger] v@[k] <= 0,
                count_set(used@, m + 1) == steps,
                !used@[j0 as int],
            ensures
                p@[j0 as int] == 0,
            decreases m + 1 - steps,
        {
            proof {
                lemma_count_set_below(used@, m + 1, j0 as int);
            }
            if steps > m {
                return u16::MAX;
            }
            proof {
                if !used@[j0 as int] {
                    ord = ord.update(j0 as int, steps as int);
                }
                lemma_count_set_update(used@, m + 1, j0 as int);
            }
            steps = steps + 1;
            used.set(j0, true);
            let i0 = p[j0];
            let ghost minv0 = minv@;
            let ghost way0 = way@;
            let mut delta = inf;
            let mut j1: usize = 0;
            let mut j: usize = 1;
            while j <= m
                invariant
                    inf == 65536,
                    n == m,
                    n >= 1,
                    a.spec_shape().0 == n as int,
                    a.spec_ready(),
                    a.spec_shape() == (n as int, m as int),
                    1 <= i0 <= n,
                    i0 == p@[j0 as int],
                    used@[j0 as int],
                    1 <= j <= m + 1,
                    m <= MAX_BOXES,
                    u@.len() == n + 1,
                    v@.len() == m + 1,
                    p@.len() == m + 1,
                    way@.len() == m + 1,
                    minv@.len() == m + 1,
                    used@.len() == m + 1,
                    j0 <= m,
                    j1 <= m,
                    forall|k: int| 0 <= k <= m ==> way@[k] <= m,
                    forall|k: int| 1 <= k <= m ==> #[trigger] way@[k] != k,
                    feasible(a, u@, v@, n as int),
                    0 <= delta <= inf,
                    forall|k: int| j <= k <= m ==> #[trigger] minv@[k] == minv0[k],
                    forall|k: int| 0 <= k <= m && (k < j ==> used@[k]) ==> #[trigger] minv@[k] == minv0[k],
                    forall|k: int|
                        1 <= k < j && !used@[k] ==> #[trigger] minv@[k] <= minv0[k] && minv@[k] >= 0 && delta
                            <= minv@[k] && minv@[k] <= entry(a, i0 as int, k) - u@[i0 as int] - v@[k],
                    forall|k: int| 1 <= k <= m && !#[trigger] used@[k] ==> minv0[k] >= 0,
                    i <= n,
                    u@.len() == n + 1,
                    forall|k: int| 1 <= k <= m && #[trigger] used@[k] ==> used@[way@[k] as int] && ord[way@[k] as int]
                        < ord[k] && u@[p@[way@[k] as int] as int] + v@[k] == entry(a, p@[way@[k] as int] as int, k),
                    forall|k: int| 1 <= k <= m && !#[trigger] used@[k] ==> minv@[k] + u@[i as int] == inf || (used@[
                        way@[k] as int] && minv@[k] == entry(a, p@[way@[k] as int] as int, k) - u@[p@[way@[k] as int] as int]
                        - v@[k]),
                    j1 != 0 ==> 1 <= j1 < j && !used@[j1 as int] && minv@[j1 as int] == delta,
                    j1 == 0 ==> delta == inf,
                    v@.len() == m + 1,
                    forall|r: int| 0 <= r <= n ==> 0 <= #[trigger] u@[r] <= 65535,
                    forall|k: int| 1 <= k <= m ==> -65535 <= #[trigger] v@[k] <= 0,
                decreases m + 1 - j,
            {
                if !used[j] {
                    let value = a.get(i0 - 1, j - 1) as i32;
                    let cur = match value.checked_sub(u[i0]) {
                        Some(x) => match x.checked_sub(v[j]) {
                            Some(y) => y,
                            None => return u16::MAX,
                        },
                        None => return u16::MAX,
                    };
                    proof {
                        assert(value == entry(a, i0 as int, j as int));
                        assert(u@[i0 as int] + v@[j as int] <= entry(a, i0 as int, j as int));
                    }
                    if cur < minv[j] {
                        minv.set(j, cur);
                        way.set(j, j0);
                    }
                    if minv[j] < delta {
                        delta = minv[j];
                        j1 = j;
                    }
                }
                j = j + 1;
            }
            let ghost u0 = u@;
            let ghost v0 = v@;
            let ghost minv1 = minv@;
            proof {
                lemma_isum_bounds(u@, n + 1, 0, 65535);
                lemma_isum_bounds(v@, m + 1, -65535, 0);
                // At most 64 rows, each potential at most `u16::MAX`.
                assert(v0[0] >= -4194240);
                // What the scan leaves: every unused column's minimum is at
                // least `delta`, and at most the slack of every used row.
                assert forall|k: int, c: int|
                    #![trigger used@[k], used@[c]]
                    1 <= k <= m && 0 <= c <= m && !used@[k] && used@[c] implies minv1[k] <= entry(
                        a,
                        p@[c] as int,
                        k,
                    ) - u0[p@[c] as int] - v0[k] && delta <= minv1[k] && minv1[k] >= 0 by {
                }
            }
            let mut j: usize = 0;
            while j <= m
                invariant
                    inf == 65536,
                    n == m,
                    n >= 1,
                    a.spec_shape().0 == n as int,
                    m <= MAX_BOXES,
                    j <= m + 1,
                    u@.len() == n + 1,
                    v@.len() == m + 1,
                    p@.len() == m + 1,
                    minv@.len() == m + 1,
                    used@.len() == m + 1,
                    p@ == pp,
                    pp[0] == i,
                    matching_below(pp, i as int, m as int),
                    forall|k: int| 0 <= k <= m ==> p@[k] <= n,
                    forall|k: int| 0 <= k <= m && #[trigger] used@[k] ==> p@[k] >= 1,
                    0 <= delta <= inf,
                    forall|k: int| 0 <= k < j ==> #[trigger] v@[k] == v0[k] - if used@[k] {
                        delta as int
                    } else {
                        0
                    },
                    forall|k: int| j <= k <= m ==> #[trigger] v@[k] == v0[k],
                    forall|k: int| 0 <= k < j && !used@[k] ==> #[trigger] minv@[k] == minv1[k] - delta,
                    forall|k: int| j <= k <= m || (0 <= k <= m && used@[k]) ==> #[trigger] minv@[k] == minv1[k],
                    forall|r: int| 0 <= r <= n ==> #[trigger] u@[r] == u0[r] + if bumped(used@, p@, r, j as int) {
                        delta as int
                    } else {
                        0
                    },
                    isum(u@, n + 1) + isum(v@, m + 1) == isum(u0, n + 1) + isum(v0, m + 1),
                    forall|r: int| 0 <= r <= n ==> 0 <= #[trigger] u0[r] <= 65535,
                    forall|k: int| 1 <= k <= m ==> -65535 <= #[trigger] v0[k] <= 0,
                    v0[0] >= -4194240,
                    forall|k: int| 1 <= k <= m && !#[trigger] used@[k] ==> minv1[k] >= 0,
                    used@[0],
                decreases m + 1 - j,
            {
                if used[j] {
                    let row = p[j];
                    proof {
                        assert(!bumped(used@, p@, row as int, j as int)) by {
                            if bumped(used@, p@, row as int, j as int) {
                                lemma_bumped_has(used@, p@, row as int, j as int);
                                let c = choose|c: int| 0 <= c < j && used@[c] && p@[c] == row;
                                if c == 0 {
                                    if j >= 1 {
                                        assert(pp[j as int] < i);
                                    }
                                } else {
                                    assert(pp[c] != 0);
                                    assert(pp[c] != pp[j as int]);
                                }
                            }
                        }
                    }
                    let ghost ub = u@;
                    let ghost vb = v@;
                    match u[row].checked_add(delta) {
                        Some(x) => u.set(row, x),
                        None => return u16::MAX,
                    }
                    match v[j].checked_sub(delta) {
                        Some(x) => v.set(j, x),
                        None => return u16::MAX,
                    }
                    proof {
                        lemma_isum_update(ub, n + 1, row as int, (ub[row as int] + delta) as i32);
                        lemma_isum_update(vb, m + 1, j as int, (vb[j as int] - delta) as i32);
                        assert forall|r: int| 0 <= r <= n implies #[trigger] u@[r] == u0[r] + if bumped(
                            used@,
                            p@,
                            r,
                            j + 1,
                        ) {
                            delta as int
                        } else {
                            0
                        } by {
                            if r != row {
                                assert(u@[r] == ub[r]);
                            }
                        }
                    }
                } else {
                    match minv[j].checked_sub(delta) {
                        Some(x) => minv.set(j, x),
                        None => return u16::MAX,
                    }
                }
                j = j + 1;
            }
            proof {
                assert(u@[0] == 0) by {
                    if bumped(used@, p@, 0, m + 1) {
                        lemma_bumped_has(used@, p@, 0, m + 1);
                    }
                }
                assert forall|r: int, k: int| 1 <= r <= n && 1 <= k <= n implies u@[r] + v@[k] <= #[trigger] entry(
                    a,
                    r,
                    k,
                ) by {
                    assert(u0[r] + v0[k] <= entry(a, r, k));
                    if bumped(used@, p@, r, m + 1) && !used@[k] {
                        lemma_bumped_has(used@, p@, r, m + 1);
                        let c = choose|c: int| 0 <= c < m + 1 && used@[c] && p@[c] == r;
                        assert(used@[c]);
                    }
                }
                assert forall|k: int, c: int|
                    #![trigger used@[k], used@[c]]
                    1 <= k <= m && 0 <= c <= m && !used@[k] && used@[c] implies minv@[k] <= entry(
                        a,
                        p@[c] as int,
                        k,
                    ) - u@[p@[c] as int] - v@[k] by {
                    lemma_bumped_by(used@, p@, p@[c] as int, c, m + 1);
                }
            }
            proof {
                // Row `i` sits at column 0, which is used: it takes `delta`.
                lemma_bumped_by(used@, p@, i as int, 0, m + 1);
                assert(u@[i as int] == u0[i as int] + delta);
                assert forall|j: int| 1 <= j <= m && #[trigger] p@[j] != 0 implies u@[p@[j] as int] + v@[j] == entry(
                    a,
                    p@[j] as int,
                    j,
                ) by {
                    let r = p@[j] as int;
                    if used@[j] {
                        lemma_bumped_by(used@, p@, r, j, m + 1);
                    } else if bumped(used@, p@, r, m + 1) {
                        lemma_bumped_has(used@, p@, r, m + 1);
                        let c = choose|c: int| 0 <= c < m + 1 && used@[c] && p@[c] == r;
                        if c == 0 {
                            assert(pp[j] < i);
                        } else {
                            assert(pp[c] != pp[j]);
                        }
                    }
                }
                assert forall|k: int| 1 <= k <= m && #[trigger] used@[k] implies used@[way@[k] as int] && ord[way@[
                    k] as int] < ord[k] && u@[p@[way@[k] as int] as int] + v@[k] == entry(
                    a,
                    p@[way@[k] as int] as int,
                    k,
                ) by {
                    lemma_bumped_by(used@, p@, p@[way@[k] as int] as int, way@[k] as int, m + 1);
                }
                assert forall|k: int| 1 <= k <= m && !#[trigger] used@[k] implies minv@[k] + u@[i as int] == inf || (
                used@[way@[k] as int] && minv@[k] == entry(a, p@[way@[k] as int] as int, k) - u@[p@[way@[
                    k] as int] as int] - v@[k]) by {
                    if used@[way@[k] as int] {
                        lemma_bumped_by(used@, p@, p@[way@[k] as int] as int, way@[k] as int, m + 1);
                    }
                }
                assert forall|r: int| i < r <= n implies #[trigger] u@[r] == 0 by {
                    if bumped(used@, p@, r, m + 1) {
                        lemma_bumped_has(used@, p@, r, m + 1);
                        let c = choose|c: int| 0 <= c < m + 1 && used@[c] && p@[c] == r;
                        if c >= 1 {
                            assert(pp[c] < i);
                        }
                    }
                    assert(u0[r] == 0);
                }
                assert(v@[jz] == 0);
                assert forall|r: int| 0 <= r <= n implies 0 <= #[trigger] u@[r] <= 65535 by {
                    if r >= 1 {
                        assert(u@[r] + v@[jz] <= entry(a, r, jz));
                    }
                }
                assert forall|k: int| 1 <= k <= m implies -65535 <= #[trigger] v@[k] <= 0 by {
                    if p@[k] != 0 {
                        assert(u@[p@[k] as int] + v@[k] == entry(a, p@[k] as int, k));
                        assert(u@[p@[k] as int] <= 65535);
                    }
                }
                if j1 != 0 {
                    // The chosen column carries a real minimum: a free column,
                    // whose potential is still zero, offers less than the
                    // sentinel would.
                    assert(!used@[jz]);
                    assert(used@[0]);
                    assert(minv1[jz] <= entry(a, p@[0] as int, jz) - u0[p@[0] as int] - v0[jz]);
                    assert(v0[jz] == 0);
                    assert(delta <= minv1[jz]);
                    assert(minv1[j1 as int] + u0[i as int] != inf);
                    assert(used@[way@[j1 as int] as int]);
                    assert(minv@[j1 as int] == 0);
                }
            }
            j0 = j1;
            if p[j0] == 0 {
                break;
            }
        }
        // Flip the matching along the path that ends at the free column `j0`.
        let ghost pq = p@;
        let ghost jf = j0 as int;
        let ghost sd = steps as int;
        proof {
            assert(jf != 0);
            assert(!used@[jf]);
            assert forall|r: int| 1 <= r <= i implies #[trigger] held_except(p@, r, jf, m as int) by {
                if r < i {
                    assert(row_held(pp, r, m as int));
                    let j = choose|j: int| 1 <= j <= m && pp[j] == r;
                    assert(p@[j] != 0);
                } else {
                    assert(p@[0] == r);
                }
            }
        }
        let mut steps: usize = 0;
        loop
            invariant_except_break
                1 <= j0,
                forall|j: int| 1 <= j <= m ==> #[trigger] p@[j] < i,
                forall|j1: int, j2: int|
                    1 <= j1 <= m && 1 <= j2 <= m && j1 != j2 && j1 != j0 && j2 != j0 && #[trigger] p@[j1]
                        != 0 ==> p@[j1] != #[trigger] p@[j2],
            invariant
                n == m,
                n >= 1,
                a.spec_shape().0 == n as int,
                m <= MAX_BOXES,
                1 <= i <= n,
                p@.len() == m + 1,
                way@.len() == m + 1,
                forall|j: int| 0 <= j <= m ==> p@[j] <= n,
                forall|j: int| 0 <= j <= m ==> way@[j] <= m,
                forall|j: int| 1 <= j <= m ==> #[trigger] way@[j] != j,
                j0 <= m,
                p@[0] == i,
                steps <= m + 1,
                u@.len() == n + 1,
                v@.len() == m + 1,
                used@.len() == m + 1,
                ord.len() == m + 1,
                pq.len() == m + 1,
                pq[0] == i,
                1 <= jf <= m,
                !used@[jf],
                pq[jf] == 0,
                used@[0],
                used@[way@[jf] as int],
                u@[pq[way@[jf] as int] as int] + v@[jf] == entry(a, pq[way@[jf] as int] as int, jf),
                forall|k: int| 1 <= k <= m && #[trigger] used@[k] ==> used@[way@[k] as int] && ord[way@[k] as int] < ord[k]
                    && u@[pq[way@[k] as int] as int] + v@[k] == entry(a, pq[way@[k] as int] as int, k),
                forall|k: int| 0 <= k <= m && #[trigger] used@[k] ==> pq[k] >= 1,
                j0 as int == jf || used@[j0 as int],
                forall|j: int| 1 <= j <= m && #[trigger] p@[j] != pq[j] ==> j0 as int != jf && (j == jf || (used@[j] && (
                j0 == 0 || ord[j] > ord[j0 as int]))),
                forall|j: int| 1 <= j <= m && #[trigger] p@[j] != 0 ==> u@[p@[j] as int] + v@[j] == entry(
                    a,
                    p@[j] as int,
                    j,
                ),
                forall|j: int| 1 <= j <= m && #[trigger] p@[j] == 0 ==> pq[j] == 0,
                forall|r: int| 1 <= r <= i ==> #[trigger] held_except(p@, r, j0 as int, m as int),
                sd <= m + 1,
                forall|k: int| 0 <= k <= m && #[trigger] used@[k] ==> ord[k] < sd,
                forall|k: int| 1 <= k <= m && #[trigger] used@[k] ==> ord[k] >= 1,
                j0 as int == jf ==> steps == 0,
                j0 as int != jf ==> ord[j0 as int] + steps <= m + 1,
            ensures
                matching_below(p@, i + 1, m as int),
                j0 == 0,
            decreases m + 1 - steps,
        {
            proof {
                if j0 as int != jf {
                    assert(used@[j0 as int]);
                    assert(ord[j0 as int] >= 1);
                }
            }
            if steps > m {
                return u16::MAX;
            }
            steps = steps + 1;
            let j1 = way[j0];
            let row = p[j1];
            let ghost pb = p@;
            let ghost jo = j0 as int;
            proof {
                if j1 >= 1 && pb[j1 as int] != pq[j1 as int] {
                    assert(used@[j1 as int]);
                    assert(jo != jf);
                    assert(ord[way@[jo] as int] < ord[jo]);
                }
                assert(row == pq[way@[jo] as int]);
                assert(row >= 1);
            }
            p.set(j0, row);
            j0 = j1;
            proof {
                if jo == jf {
                    assert(ord[way@[jf] as int] < sd);
                } else {
                    assert(ord[way@[jo] as int] < ord[jo]);
                }
                assert forall|r: int| 1 <= r <= i implies #[trigger] held_except(p@, r, j0 as int, m as int) by {
                    assert(held_except(pb, r, jo, m as int));
                    let j = choose|j: int| 0 <= j <= m && j != jo && pb[j] == r;
                    if j == j1 as int {
                        assert(p@[jo] == r);
                    } else {
                        assert(p@[j] == r);
                    }
                }
                assert forall|j: int| 1 <= j <= m && #[trigger] p@[j] != pq[j] implies j0 as int != jf && (j == jf || (
                used@[j] && (j0 == 0 || ord[j] > ord[j0 as int]))) by {
                    if j == jo {
                        if jo != jf {
                            assert(ord[way@[jo] as int] < ord[jo]);
                        }
                    } else {
                        assert(pb[j] != pq[j]);
                    }
                }
            }
            if j0 == 0 {
                proof {
                    assert forall|a1: int, a2: int|
                        1 <= a1 <= m && 1 <= a2 <= m && a1 != a2 && #[trigger] p@[a1] != 0 implies p@[a1]
                        != #[trigger] p@[a2] by {
                        if a1 != jo && a2 != jo {
                            assert(pb[a1] != pb[a2]);
                        } else if a1 == jo {
                            assert(pb[a2] < i);
                        } else {
                            assert(pb[a1] < i);
                        }
                    }
                    assert forall|a1: int| 1 <= a1 <= m implies #[trigger] p@[a1] < i + 1 by {
                        if a1 != jo {
                            assert(pb[a1] < i);
                        }
                    }
                }
                break;
            }
            proof {
                let w = j0 as int;
                assert(w != jo);
                assert forall|a1: int, a2: int|
                    1 <= a1 <= m && 1 <= a2 <= m && a1 != a2 && a1 != w && a2 != w && #[trigger] p@[a1]
                        != 0 implies p@[a1] != #[trigger] p@[a2] by {
                    if a1 != jo && a2 != jo {
                        assert(pb[a1] != pb[a2]);
                    } else if a1 == jo {
                        assert(p@[a1] == pb[w]);
                        assert(pb[w] != pb[a2]);
                    } else {
                        assert(p@[a2] == pb[w]);
                        assert(pb[a1] != pb[w]);
                    }
                }
                assert forall|a1: int| 1 <= a1 <= m implies #[trigger] p@[a1] < i by {
                    if a1 == jo {
                        assert(pb[w] < i);
                    } else {
                        assert(pb[a1] < i);
                    }
                }
            }
        }
        proof {
            assert forall|r: int| 1 <= r < i + 1 implies #[trigger] row_held(p@, r, m as int) by {
                assert(held_except(p@, r, 0, m as int));
                let j = choose|j: int| 0 <= j <= m && j != 0 && p@[j] == r;
                assert(1 <= j <= m && p@[j] == r);
            }
        }
        i = i + 1;
    }
    let total = v[0];
    proof {
        lemma_matching_attains(a, u@, v@, p@, n as int);
        assert forall|s: Seq<int>| is_assignment(s, n as int) implies -v@[0] <= #[trigger] assignment_cost(a, s, n as int) by {
            lemma_dual_bound(a, u@, v@, s, n as int);
        }
        let s0 = choose|s: Seq<int>| is_assignment(s, n as int) && #[trigger] assignment_cost(a, s, n as int) == isum(
            u@,
            n + 1,
        ) - u@[0] + isum(v@, n + 1) - v@[0];
        lemma_cost_nonneg(a, s0, n as int);
        assert(total <= 0);
    }
    if total <= 0 && total >= -65535 {
        (0 - total) as u16
    } else {
        u16::MAX
    }
}

/// A buffer of `n + 1` copies of `value`.
fn new_buffer<T: Copy>(n: usize, value: T) -> (r: Vec<T>)
    requires
        n < usize::MAX,
    ensures
        r@.len() == n + 1,
        forall|k: int| 0 <= k <= n ==> r@[k] == value,
{
    let mut r: Vec<T> = Vec::new();
    let mut k: usize = 0;
    while k <= n
        invariant
            n < usize::MAX,
            k <= n + 1,
            r@.len() == k,
            forall|q: int| 0 <= q < k ==> r@[q] == value,
        decreases n + 1 - k,
    {
        r.push(value);
        k = k + 1;
    }
    r
}

} // verus!
