use vstd::prelude::*;

use crate::bits::{on_grid, Position};
use vstd::set_lib::{lemma_int_range, lemma_len_subset, lemma_map_size, set_int_range};

verus! {

/// `s` is closed under the step relation: each square that a step leads to
/// from a square of `s` is in `s` too. A step is given by the number of a
/// direction (below 4); `None` means that no step is allowed.
pub open spec fn closed(step: spec_fn(Position, int) -> Option<Position>, s: Set<Position>) -> bool {
    forall|p: Position, d: int|
        #![trigger s.contains(p), step(p, d)]
        s.contains(p) && 0 <= d < 4 && step(p, d) is Some ==> s.contains(step(p, d)->0)
}

/// `v` lies inside every closed set that contains `base`.
pub open spec fn within_closure(
    step: spec_fn(Position, int) -> Option<Position>,
    base: Set<Position>,
    v: Set<Position>,
) -> bool {
    forall|s: Set<Position>| #[trigger] closed(step, s) && base.subset_of(s) ==> v.subset_of(s)
}

/// `v` is the least closed set that contains `base`: the squares that steps
/// reach from `base`.
pub open spec fn is_closure(
    step: spec_fn(Position, int) -> Option<Position>,
    base: Set<Position>,
    v: Set<Position>,
) -> bool {
    &&& base.subset_of(v)
    &&& closed(step, v)
    &&& within_closure(step, base, v)
}

/// The closure is unique.
pub proof fn lemma_closure_unique(
    step: spec_fn(Position, int) -> Option<Position>,
    base: Set<Position>,
    v: Set<Position>,
    w: Set<Position>,
)
    requires
        is_closure(step, base, v),
        is_closure(step, base, w),
    ensures
        v == w,
{
    assert(closed(step, w) && base.subset_of(w));
    assert(closed(step, v) && base.subset_of(v));
    assert(v =~= w);
}

/// The square of the 64 x 64 grid with number `k` (row-major).
pub open spec fn grid_pos(k: int) -> Position {
    Position((k % 64) as u8, (k / 64) as u8)
}

/// The number of a grid square (row-major).
pub open spec fn cell(p: Position) -> int {
    p.1 * 64 + p.0
}

pub proof fn lemma_cell_grid_pos(p: Position)
    requires
        on_grid(p),
    ensures
        0 <= cell(p) < 4096,
        grid_pos(cell(p)) == p,
{
}

pub proof fn lemma_grid_pos_cell(k: int)
    requires
        0 <= k < 4096,
    ensures
        on_grid(grid_pos(k)),
        cell(grid_pos(k)) == k,
{
}

/// The number of grid squares with a number below `n` that are not in `v`.
pub open spec fn count_missing(v: Set<Position>, n: nat) -> nat
    decreases n,
{
    if n == 0 {
        0
    } else {
        count_missing(v, (n - 1) as nat) + if v.contains(grid_pos(n - 1)) {
            0nat
        } else {
            1nat
        }
    }
}

/// Nothing is missing from the grid beyond its squares.
pub proof fn lemma_count_missing_empty(n: nat)
    ensures
        count_missing(Set::empty(), n) == n,
    decreases n,
{
    if n > 0 {
        lemma_count_missing_empty((n - 1) as nat);
    }
}

/// At most `n` squares are missing below `n`.
pub proof fn lemma_count_missing_le(v: Set<Position>, n: nat)
    ensures
        count_missing(v, n) <= n,
    decreases n,
{
    if n > 0 {
        lemma_count_missing_le(v, (n - 1) as nat);
    }
}

/// Adding a missing grid square lowers the count by one.
/// At most `n` squares are missing, and fewer when one of them is there.
pub proof fn lemma_count_missing_bound(v: Set<Position>, n: nat, k: int)
    ensures
        count_missing(v, n) <= n,
        0 <= k < n && v.contains(grid_pos(k)) ==> count_missing(v, n) < n,
    decreases n,
{
    if n > 0 {
        lemma_count_missing_bound(v, (n - 1) as nat, k);
    }
}

pub proof fn lemma_count_missing_insert(v: Set<Position>, p: Position, n: nat)
    requires
        on_grid(p),
        !v.contains(p),
        n <= 4096,
    ensures
        count_missing(v.insert(p), n) + (if cell(p) < n {
            1int
        } else {
            0int
        }) == count_missing(v, n),
    decreases n,
{
    if n > 0 {
        lemma_count_missing_insert(v, p, (n - 1) as nat);
        let q = grid_pos(n - 1);
        lemma_grid_pos_cell(n - 1);
        if q == p {
            assert(cell(p) == n - 1);
        } else {
            assert(cell(q) == n - 1);
            assert(v.insert(p).contains(q) == v.contains(q));
        }
    }
}

/// Nothing reached from nothing.
pub proof fn lemma_closure_empty(step: spec_fn(Position, int) -> Option<Position>)
    ensures
        is_closure(step, Set::empty(), Set::empty()),
{
}

/// A closure grows by a new start point to the closure of the larger base.
pub proof fn lemma_closure_extend(
    step: spec_fn(Position, int) -> Option<Position>,
    a: Set<Position>,
    v: Set<Position>,
    s: Position,
    w: Set<Position>,
)
    requires
        is_closure(step, a, v),
        is_closure(step, v.insert(s), w),
    ensures
        is_closure(step, a.insert(s), w),
{
    assert forall|t: Set<Position>| #[trigger] closed(step, t) && a.insert(s).subset_of(t) implies w.subset_of(t) by {
        assert(a.subset_of(t));
        assert(v.subset_of(t));
        assert(v.insert(s).subset_of(t));
    }
}

/// A closure that already holds a start point is the closure with it.
pub proof fn lemma_closure_has(
    step: spec_fn(Position, int) -> Option<Position>,
    a: Set<Position>,
    v: Set<Position>,
    s: Position,
)
    requires
        is_closure(step, a, v),
        v.contains(s),
    ensures
        is_closure(step, a.insert(s), v),
{
    assert forall|t: Set<Position>| #[trigger] closed(step, t) && a.insert(s).subset_of(t) implies v.subset_of(t) by {
        assert(a.subset_of(t));
    }
}

/// The squares that steps reach from `base`: those in every closed set that
/// contains `base`.
pub open spec fn closure_of(
    step: spec_fn(Position, int) -> Option<Position>,
    base: Set<Position>,
) -> Set<Position> {
    Set::new(|p: Position| forall|s: Set<Position>| #[trigger] closed(step, s) && base.subset_of(s) ==> s.contains(p))
}

pub proof fn lemma_closure_of(step: spec_fn(Position, int) -> Option<Position>, base: Set<Position>)
    ensures
        is_closure(step, base, closure_of(step, base)),
{
    let c = closure_of(step, base);
    assert forall|p: Position, d: int|
        #![trigger c.contains(p), step(p, d)]
        c.contains(p) && 0 <= d < 4 && step(p, d) is Some implies c.contains(step(p, d)->0) by {
        assert forall|s: Set<Position>| #[trigger] closed(step, s) && base.subset_of(s) implies s.contains(step(p, d)->0) by {
            assert(s.contains(p));
        }
    }
}

/// The grid squares.
pub open spec fn grid() -> Set<Position> {
    Set::new(|p: Position| on_grid(p))
}

/// The grid is finite, with 4096 squares, and so is each set of grid squares.
pub proof fn lemma_grid_finite(s: Set<Position>)
    requires
        s.subset_of(grid()),
    ensures
        grid().finite(),
        grid().len() == 4096,
        s.finite(),
        s.len() <= 4096,
{
    lemma_int_range(0, 4096);
    let r = set_int_range(0, 4096);
    assert(r.map(|k: int| grid_pos(k)) =~= grid()) by {
        assert forall|p: Position| grid().contains(p) implies r.map(|k: int| grid_pos(k)).contains(p) by {
            lemma_cell_grid_pos(p);
            assert(r.contains(cell(p)));
        }
        assert forall|p: Position| r.map(|k: int| grid_pos(k)).contains(p) implies grid().contains(p) by {
            let k = choose|k: int| r.contains(k) && grid_pos(k) == p;
            lemma_grid_pos_cell(k);
        }
    }
    assert forall|a: int, b: int| r.contains(a) && r.contains(b) && #[trigger] grid_pos(a) == #[trigger] grid_pos(b) implies a == b by {
        lemma_grid_pos_cell(a);
        lemma_grid_pos_cell(b);
    }
    lemma_map_size(r, grid(), |k: int| grid_pos(k));
    lemma_len_subset(s, grid());
}

/// The squares that at most `k` steps reach from `start`.
pub open spec fn within_steps(step: spec_fn(Position, int) -> Option<Position>, start: Position, k: nat) -> Set<
    Position,
>
    decreases k,
{
    if k == 0 {
        set![start]
    } else {
        let prev = within_steps(step, start, (k - 1) as nat);
        Set::new(
            |q: Position|
                prev.contains(q) || exists|p: Position, d: int|
                    #![trigger prev.contains(p), step(p, d)]
                    prev.contains(p) && 0 <= d < 4 && step(p, d) == Some(q),
        )
    }
}

/// `k` steps, and no fewer, reach `q` from `start`.
pub open spec fn least_steps(step: spec_fn(Position, int) -> Option<Position>, start: Position, q: Position, k: nat) -> bool {
    &&& within_steps(step, start, k).contains(q)
    &&& (k == 0 || !within_steps(step, start, (k - 1) as nat).contains(q))
}

/// A distance `d` tells how many steps at least reach `q` from `start`, and
/// `u16::MAX` that no number of steps does.
pub open spec fn distance_ok(step: spec_fn(Position, int) -> Option<Position>, start: Position, q: Position, d: u16) -> bool {
    if d == u16::MAX {
        forall|k: nat| !#[trigger] within_steps(step, start, k).contains(q)
    } else {
        least_steps(step, start, q, d as nat)
    }
}

/// More steps reach at least as much.
pub proof fn lemma_within_mono(step: spec_fn(Position, int) -> Option<Position>, start: Position, a: nat, b: nat)
    requires
        a <= b,
    ensures
        within_steps(step, start, a).subset_of(within_steps(step, start, b)),
    decreases b,
{
    if a < b {
        lemma_within_mono(step, start, a, (b - 1) as nat);
    }
}

/// One more step from a square within `k` steps lands within `k + 1`.
pub proof fn lemma_within_step(
    step: spec_fn(Position, int) -> Option<Position>,
    start: Position,
    k: nat,
    p: Position,
    d: int,
)
    requires
        within_steps(step, start, k).contains(p),
        0 <= d < 4,
        step(p, d) is Some,
    ensures
        within_steps(step, start, k + 1).contains(step(p, d)->0),
{
    let prev = within_steps(step, start, k);
    assert(prev.contains(p) && 0 <= d < 4 && step(p, d) == Some(step(p, d)->0));
}

/// A square first reached in `k + 1` steps is one step from a square within
/// `k` steps.
pub proof fn lemma_within_pred(step: spec_fn(Position, int) -> Option<Position>, start: Position, k: nat, q: Position)
    requires
        within_steps(step, start, k + 1).contains(q),
        !within_steps(step, start, k).contains(q),
    ensures
        exists|p: Position, d: int|
            #![trigger within_steps(step, start, k).contains(p), step(p, d)]
            within_steps(step, start, k).contains(p) && 0 <= d < 4 && step(p, d) == Some(q),
{
}

/// A closed set that holds the start holds everything that steps reach.
pub proof fn lemma_within_closed(
    step: spec_fn(Position, int) -> Option<Position>,
    start: Position,
    s: Set<Position>,
    k: nat,
)
    requires
        s.contains(start),
        closed(step, s),
    ensures
        within_steps(step, start, k).subset_of(s),
    decreases k,
{
    if k > 0 {
        lemma_within_closed(step, start, s, (k - 1) as nat);
        let prev = within_steps(step, start, (k - 1) as nat);
        assert forall|q: Position| within_steps(step, start, k).contains(q) implies s.contains(q) by {
            if !prev.contains(q) {
                let (p, d) = choose|p: Position, d: int|
                    #![trigger prev.contains(p), step(p, d)]
                    prev.contains(p) && 0 <= d < 4 && step(p, d) == Some(q);
                assert(s.contains(p));
            }
        }
    } else {
        assert(within_steps(step, start, 0) =~= set![start]);
    }
}

} // verus!
