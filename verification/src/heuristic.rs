use std::collections::VecDeque;
use vstd::prelude::*;

use arrayvec::ArrayVec;
use crate::plist::{pair_list, pairs_get, pairs_len, pairs_new, pairs_push};
use crate::bits::{on_grid, Bitvector, BitvectorIter, Index, Position};
use crate::game::{Game, Tile};
use crate::hungarian::{assignment_cost, hungarian_algorithm, is_assignment, ArrayMatrix, Matrix};
use crate::moves::{dir_at, opposite, Direction};
use crate::reach::{
    cell, closed, count_missing, distance_ok, least_steps, lemma_cell_grid_pos, lemma_count_missing_insert, lemma_within_closed,
    lemma_within_mono, lemma_within_pred, lemma_within_step, within_steps,
};
use crate::sort::{counting_sort, sorted_by_key};

verus! {

/// Estimated cost returned by heuristic computation.
#[derive(Debug, Clone, Copy, PartialEq, Eq, Structural)]
pub struct Cost(pub u16);

impl Cost {
    /// The cost of a position that cannot be solved.
    pub fn unsolvable() -> (r: Cost)
        ensures
            r == Cost(u16::MAX),
    {
        Cost(u16::MAX)
    }
}

impl From<Cost> for usize {
    fn from(cost: Cost) -> (r: usize) {
        cost.0 as usize
    }
}

impl vstd::std_specs::convert::FromSpecImpl<Cost> for usize {
    open spec fn obeys_from_spec() -> bool {
        true
    }

    open spec fn from_spec(v: Cost) -> usize {
        v.0 as usize
    }
}

/// The number of distance entries: one grid of 64 x 64 squares for each of
/// up to 64 destinations.
pub open spec fn table_len() -> int {
    64int * 4096int
}

/// The distance that a table holds from square `p` to destination `k`.
pub open spec fn dist(ds: Seq<u16>, k: int, p: Position) -> u16 {
    ds[k * 4096 + cell(p)]
}

pub open spec fn min16(a: u16, b: u16) -> u16 {
    if a <= b {
        a
    } else {
        b
    }
}

pub open spec fn max16(a: u16, b: u16) -> u16 {
    if a >= b {
        a
    } else {
        b
    }
}

/// The least distance from square `p` to the first `n` destinations.
pub open spec fn nearest_dst(ds: Seq<u16>, p: Position, n: int) -> u16
    decreases n,
{
    if n <= 0 {
        u16::MAX
    } else {
        min16(nearest_dst(ds, p, n - 1), dist(ds, n - 1, p))
    }
}

/// The least distance to destination `k` from the first `m` boxes.
pub open spec fn nearest_box(ds: Seq<u16>, boxes: Seq<Position>, k: int, m: int) -> u16
    decreases m,
{
    if m <= 0 {
        u16::MAX
    } else {
        min16(nearest_box(ds, boxes, k, m - 1), dist(ds, k, boxes[m - 1]))
    }
}

/// The total, in 16-bit arithmetic, of the nearest destinations of the
/// first `m` boxes; `None` if one of them reaches no destination.
pub open spec fn boxes_total(ds: Seq<u16>, boxes: Seq<Position>, m: int) -> Option<u16>
    decreases m,
{
    if m <= 0 {
        Some(0u16)
    } else {
        match boxes_total(ds, boxes, m - 1) {
            None => None,
            Some(t) => {
                let d = nearest_dst(ds, boxes[m - 1], boxes.len() as int);
                if d == u16::MAX {
                    None
                } else {
                    Some(t.wrapping_add(d))
                }
            },
        }
    }
}

/// The total, in 16-bit arithmetic, of the nearest boxes of the first `k`
/// destinations; `None` if one of them is reached by no box.
pub open spec fn dsts_total(ds: Seq<u16>, boxes: Seq<Position>, k: int) -> Option<u16>
    decreases k,
{
    if k <= 0 {
        Some(0u16)
    } else {
        match dsts_total(ds, boxes, k - 1) {
            None => None,
            Some(t) => {
                let d = nearest_box(ds, boxes, k - 1, boxes.len() as int);
                if d == u16::MAX {
                    None
                } else {
                    Some(t.wrapping_add(d))
                }
            },
        }
    }
}

/// Once a total is unsolvable, it stays so.
proof fn lemma_totals_none(ds: Seq<u16>, boxes: Seq<Position>, a: int, b: int)
    requires
        0 <= a <= b,
    ensures
        boxes_total(ds, boxes, a) is None ==> boxes_total(ds, boxes, b) is None,
        dsts_total(ds, boxes, a) is None ==> dsts_total(ds, boxes, b) is None,
    decreases b - a,
{
    if a < b {
        lemma_totals_none(ds, boxes, a, b - 1);
    }
}

/// The simple estimate: the larger of the two totals, or unsolvable where a
/// box reaches no destination or a destination no box.
pub open spec fn simple_cost(ds: Seq<u16>, boxes: Seq<Position>) -> u16 {
    match boxes_total(ds, boxes, boxes.len() as int) {
        None => u16::MAX,
        Some(bt) => match dsts_total(ds, boxes, boxes.len() as int) {
            None => u16::MAX,
            Some(dt) => max16(dt, bt),
        },
    }
}

/// The nearest destination of a square is the least of its distances to
/// the first `n` destinations: no destination is nearer, and one is that
/// near (for `n > 0`).
pub proof fn lemma_nearest_dst(ds: Seq<u16>, p: Position, n: int)
    requires
        n >= 0,
    ensures
        forall|k: int| 0 <= k < n ==> nearest_dst(ds, p, n) <= #[trigger] dist(ds, k, p),
        n > 0 ==> exists|k: int| 0 <= k < n && nearest_dst(ds, p, n) == #[trigger] dist(ds, k, p),
        n == 0 ==> nearest_dst(ds, p, n) == u16::MAX,
    decreases n,
{
    if n > 0 {
        lemma_nearest_dst(ds, p, n - 1);
        if n > 1 && nearest_dst(ds, p, n - 1) <= dist(ds, n - 1, p) {
            let k = choose|k: int| 0 <= k < n - 1 && nearest_dst(ds, p, n - 1) == #[trigger] dist(ds, k, p);
            assert(0 <= k < n && nearest_dst(ds, p, n) == dist(ds, k, p));
        } else {
            assert(nearest_dst(ds, p, n) == dist(ds, n - 1, p));
        }
    }
}

/// The nearest box of a destination is the least of the distances of the
/// first `m` boxes to it: no box is nearer, and one is that near (for
/// `m > 0`).
pub proof fn lemma_nearest_box(ds: Seq<u16>, boxes: Seq<Position>, k: int, m: int)
    requires
        m >= 0,
    ensures
        forall|b: int| 0 <= b < m ==> nearest_box(ds, boxes, k, m) <= #[trigger] dist(ds, k, boxes[b]),
        m > 0 ==> exists|b: int| 0 <= b < m && nearest_box(ds, boxes, k, m) == #[trigger] dist(ds, k, boxes[b]),
        m == 0 ==> nearest_box(ds, boxes, k, m) == u16::MAX,
    decreases m,
{
    if m > 0 {
        lemma_nearest_box(ds, boxes, k, m - 1);
        if m > 1 && nearest_box(ds, boxes, k, m - 1) <= dist(ds, k, boxes[m - 1]) {
            let b = choose|b: int| 0 <= b < m - 1 && nearest_box(ds, boxes, k, m - 1) == #[trigger] dist(ds, k, boxes[b]);
            assert(0 <= b < m && nearest_box(ds, boxes, k, m) == dist(ds, k, boxes[b]));
        } else {
            assert(nearest_box(ds, boxes, k, m) == dist(ds, k, boxes[m - 1]));
        }
    }
}

/// The simple estimate is the larger of its two totals: it is at least the
/// total, over the boxes, of the distance to the nearest destination, at
/// least the total, over the destinations, of the distance from the nearest
/// box, and one of the two; where either total is unknown (some box or
/// destination unreachable), it is the maximum.
pub proof fn lemma_simple_cost_larger(ds: Seq<u16>, boxes: Seq<Position>)
    ensures
        ({
            let c = simple_cost(ds, boxes);
            match (boxes_total(ds, boxes, boxes.len() as int), dsts_total(ds, boxes, boxes.len() as int)) {
                (Some(bt), Some(dt)) => c >= bt && c >= dt && (c == bt || c == dt),
                _ => c == u16::MAX,
            }
        }),
{
}

/// Trait for computing heuristics that estimate the number of moves (pushes/pulls) needed.
pub trait Heuristic: Sized {
    /// The heuristic was made for the game's board, for pushes (forward) or
    /// for pulls.
    spec fn made_for(&self, game: Game, forward: bool) -> bool;

    /// `c` is what the heuristic estimates for the game.
    spec fn gives(&self, game: Game, c: Cost) -> bool;

    /// Create a push-oriented heuristic for forward search.
    fn new_push(game: &Game) -> (r: Self)
        requires
            game.wf(),
        ensures
            r.made_for(*game, true),
    ;

    /// Create a pull-oriented heuristic for reverse search.
    fn new_pull(game: &Game) -> (r: Self)
        requires
            game.wf(),
        ensures
            r.made_for(*game, false),
    ;

    /// Compute estimated number of moves (pushes/pulls).
    /// Returns UNSOLVABLE if the position is impossible to solve.
    fn compute(&self, game: &Game) -> (r: Cost)
        requires
            game.wf(),
        ensures
            self.gives(*game, r),
    ;
}

pub struct NullHeuristic;

impl Heuristic for NullHeuristic {
    open spec fn made_for(&self, _game: Game, _forward: bool) -> bool {
        true
    }

    open spec fn gives(&self, _game: Game, c: Cost) -> bool {
        c == Cost(0)
    }

    fn new_push(_game: &Game) -> Self {
        NullHeuristic
    }

    fn new_pull(_game: &Game) -> Self {
        NullHeuristic
    }

    fn compute(&self, _game: &Game) -> (r: Cost)
        ensures
            r == Cost(0),
    {
        Cost(0)
    }
}

/// A heuristic based on simple matching of boxes to goals using precomputed push/pull distances.
pub struct SimpleHeuristic {
    /// distances[idx * 4096 + y * 64 + x] = minimum pushes/pulls to get a box
    /// from (x, y) to destination idx
    distances: Vec<u16>,
}

impl SimpleHeuristic {
    #[verifier::type_invariant]
    spec fn inv(&self) -> bool {
        self.distances@.len() == table_len()
    }

    pub closed spec fn table(&self) -> Seq<u16> {
        self.distances@
    }
}

impl Heuristic for SimpleHeuristic {
    open spec fn made_for(&self, game: Game, forward: bool) -> bool {
        distance_table(game, forward, self.table())
    }

    open spec fn gives(&self, game: Game, c: Cost) -> bool {
        c == Cost(simple_cost(self.table(), game.box_list()))
    }
    /// Distances by pushes to each goal.
    fn new_push(game: &Game) -> (r: Self)
        ensures
            distance_table(*game, true, r.table()),
    {
        let distances = compute_push_distances(game);
        SimpleHeuristic { distances }
    }

    /// Distances by pulls to each goal.
    fn new_pull(game: &Game) -> (r: Self)
        ensures
            distance_table(*game, false, r.table()),
    {
        let distances = compute_pull_distances(game);
        SimpleHeuristic { distances }
    }

    /// The larger of two totals: over the boxes, the distance to the nearest
    /// destination; over the destinations, the distance from the nearest box.
    /// If a box reaches no destination, or a destination no box, the game is
    /// unsolvable. The totals are kept in 16 bits and wrap around.
    fn compute(&self, game: &Game) -> (r: Cost)
        ensures
            r == Cost(simple_cost(self.table(), game.box_list())),
    {
        proof {
            use_type_invariant(self);
            game.lemma_wf_core();
            game.lemma_wf();
        }
        let ghost ds = self.distances@;
        let boxes = game.box_positions();
        let box_count = boxes.len();
        let ghost bl = boxes@;
        let mut box_to_dst_total = 0u16;
        let mut dst_to_box: [u16; 64] = [u16::MAX; 64];
        let mut i: usize = 0;
        while i < box_count
            invariant
                ds == self.distances@,
                ds.len() == table_len(),
                bl == boxes@,
                bl == game.box_list(),
                box_count == bl.len(),
                box_count <= 64,
                forall|j: int| 0 <= j < bl.len() ==> on_grid(#[trigger] bl[j]),
                i <= box_count,
                boxes_total(ds, bl, i as int) == Some(box_to_dst_total),
                forall|k: int| 0 <= k < box_count ==> #[trigger] dst_to_box@[k] == nearest_box(ds, bl, k, i as int),
            decreases box_count - i,
        {
            let pos = boxes[i];
            proof {
                lemma_cell_grid_pos(pos);
            }
            let mut box_to_dst = u16::MAX;
            let mut k: usize = 0;
            while k < box_count
                invariant
                    ds == self.distances@,
                    ds.len() == table_len(),
                    bl == boxes@,
                    bl == game.box_list(),
                    box_count == bl.len(),
                    box_count <= 64,
                    i < box_count,
                    pos == bl[i as int],
                    on_grid(pos),
                    k <= box_count,
                    box_to_dst == nearest_dst(ds, pos, k as int),
                    forall|kk: int| 0 <= kk < k ==> #[trigger] dst_to_box@[kk] == nearest_box(ds, bl, kk, i + 1),
                    forall|kk: int| k <= kk < box_count ==> #[trigger] dst_to_box@[kk] == nearest_box(ds, bl, kk, i as int),
                decreases box_count - k,
            {
                let distance = self.distances[k * 4096 + pos.1 as usize * 64 + pos.0 as usize];
                if distance < box_to_dst {
                    box_to_dst = distance;
                }
                if distance < dst_to_box[k] {
                    dst_to_box[k] = distance;
                }
                k = k + 1;
            }
            if box_to_dst == u16::MAX {
                proof {
                    assert(nearest_dst(ds, bl[i as int], bl.len() as int) == u16::MAX);
                    assert(boxes_total(ds, bl, i + 1) is None);
                    lemma_totals_none(ds, bl, i + 1, box_count as int);
                    assert(boxes_total(ds, bl, bl.len() as int) is None);
                }
                return Cost::unsolvable();
            }
            box_to_dst_total = box_to_dst_total.wrapping_add(box_to_dst);
            i = i + 1;
        }
        let mut dst_to_box_total = 0u16;
        let mut k: usize = 0;
        while k < box_count
            invariant
                ds == self.distances@,
                bl == boxes@,
                bl == game.box_list(),
                box_count == bl.len(),
                box_count <= 64,
                k <= box_count,
                boxes_total(ds, bl, box_count as int) == Some(box_to_dst_total),
                dsts_total(ds, bl, k as int) == Some(dst_to_box_total),
                forall|kk: int| 0 <= kk < box_count ==> #[trigger] dst_to_box@[kk] == nearest_box(ds, bl, kk, box_count as int),
            decreases box_count - k,
        {
            let dist = dst_to_box[k];
            if dist == u16::MAX {
                proof {
                    assert(nearest_box(ds, bl, k as int, bl.len() as int) == u16::MAX);
                    assert(dsts_total(ds, bl, k + 1) is None);
                    lemma_totals_none(ds, bl, k + 1, box_count as int);
                    assert(dsts_total(ds, bl, bl.len() as int) is None);
                }
                return Cost::unsolvable();
            } else {
                dst_to_box_total = dst_to_box_total.wrapping_add(dist);
            }
            k = k + 1;
        }
        if dst_to_box_total >= box_to_dst_total {
            Cost(dst_to_box_total)
        } else {
            Cost(box_to_dst_total)
        }
    }
}

/// The pairs of box `b` and each of the first `d` destinations whose
/// distance is known: (distance, box, destination).
pub open spec fn row_pairs(ds: Seq<u16>, boxes: Seq<Position>, b: int, d: int) -> Seq<(u16, Index, Index)>
    decreases d,
{
    if d <= 0 {
        Seq::empty()
    } else {
        let prev = row_pairs(ds, boxes, b, d - 1);
        let x = dist(ds, d - 1, boxes[b]);
        if x < u16::MAX {
            prev.push((x, Index(b as u8), Index((d - 1) as u8)))
        } else {
            prev
        }
    }
}

/// The pairs with a known distance of the first `b` boxes and all
/// destinations, box by box.
pub open spec fn known_pairs(ds: Seq<u16>, boxes: Seq<Position>, b: int) -> Seq<(u16, Index, Index)>
    decreases b,
{
    if b <= 0 {
        Seq::empty()
    } else {
        known_pairs(ds, boxes, b - 1) + row_pairs(ds, boxes, b - 1, boxes.len() as int)
    }
}

/// The greedy matching over the first `j` pairs of `s`: each pair whose box
/// and destination are both still free is taken. The 16-bit total of the
/// pairs taken, and the boxes and destinations they took.
pub open spec fn greedy_match(s: Seq<(u16, Index, Index)>, j: int) -> (u16, Set<int>, Set<int>)
    decreases j,
{
    if j <= 0 {
        (0u16, Set::empty(), Set::empty())
    } else {
        let prev = greedy_match(s, j - 1);
        let p = s[j - 1];
        if !prev.1.contains(p.1.0 as int) && !prev.2.contains(p.2.0 as int) {
            (prev.0.wrapping_add(p.0), prev.1.insert(p.1.0 as int), prev.2.insert(p.2.0 as int))
        } else {
            prev
        }
    }
}

/// The sum of `f` over the members of `s` below `m`.
pub open spec fn set_total(f: spec_fn(int) -> u16, s: Set<int>, m: int) -> int
    decreases m,
{
    if m <= 0 {
        0
    } else {
        set_total(f, s, m - 1) + if s.contains(m - 1) {
            f(m - 1) as int
        } else {
            0
        }
    }
}

proof fn lemma_set_total_empty(f: spec_fn(int) -> u16, m: int)
    ensures
        set_total(f, Set::empty(), m) == 0,
    decreases m,
{
    if m > 0 {
        lemma_set_total_empty(f, m - 1);
    }
}

proof fn lemma_set_total_insert(f: spec_fn(int) -> u16, s: Set<int>, x: int, m: int)
    requires
        !s.contains(x),
        0 <= x < m,
    ensures
        set_total(f, s.insert(x), m) == set_total(f, s, m) + f(x),
    decreases m,
{
    if m - 1 > x {
        lemma_set_total_insert(f, s, x, m - 1);
    } else {
        lemma_set_total_same(f, s.insert(x), s, m - 1);
    }
}

proof fn lemma_set_total_same(f: spec_fn(int) -> u16, s1: Set<int>, s2: Set<int>, m: int)
    requires
        forall|i: int| 0 <= i < m ==> (s1.contains(i) <==> s2.contains(i)),
    ensures
        set_total(f, s1, m) == set_total(f, s2, m),
    decreases m,
{
    if m > 0 {
        lemma_set_total_same(f, s1, s2, m - 1);
    }
}

/// The greedy estimate over the pairs `s` in their order: the pairs the
/// greedy matching takes, plus the larger of two lower bounds for what it
/// leaves (the nearest destination of each box left, the nearest box of each
/// destination left), all in 16-bit arithmetic; unsolvable where a box left
/// reaches no destination or a destination left no box.
pub open spec fn greedy_cost(ds: Seq<u16>, boxes: Seq<Position>, s: Seq<(u16, Index, Index)>) -> u16 {
    let n = boxes.len() as int;
    let g = greedy_match(s, s.len() as int);
    let box_near = |i: int| nearest_dst(ds, boxes[i], n);
    let dst_near = |k: int| nearest_box(ds, boxes, k, n);
    let left_boxes = Set::new(|i: int| 0 <= i < n && !g.1.contains(i));
    let left_dsts = Set::new(|k: int| 0 <= k < n && !g.2.contains(k));
    if exists|i: int| left_boxes.contains(i) && #[trigger] nearest_dst(ds, boxes[i], n) == u16::MAX {
        u16::MAX
    } else if exists|k: int| left_dsts.contains(k) && #[trigger] nearest_box(ds, boxes, k, n) == u16::MAX {
        u16::MAX
    } else {
        let ub = (set_total(box_near, left_boxes, n) % 65536) as u16;
        let ud = (set_total(dst_near, left_dsts, n) % 65536) as u16;
        g.0.wrapping_add(max16(ub, ud))
    }
}

/// Heuristic which attempts to match boxes and goals greedily to find a minimum
/// cost matching. Runs in O(n^2) rather than O(n^3) required by the optimal
/// approach.
pub struct GreedyHeuristic {
    /// distances[idx * 4096 + y * 64 + x] = minimum pushes/pulls to get a box
    /// from (x, y) to destination idx
    distances: Vec<u16>,
}

impl GreedyHeuristic {
    #[verifier::type_invariant]
    spec fn inv(&self) -> bool {
        self.distances@.len() == table_len()
    }

    pub closed spec fn table(&self) -> Seq<u16> {
        self.distances@
    }
}

impl Heuristic for GreedyHeuristic {
    open spec fn made_for(&self, game: Game, forward: bool) -> bool {
        distance_table(game, forward, self.table())
    }

    open spec fn gives(&self, game: Game, c: Cost) -> bool {
        exists|s: Seq<(u16, Index, Index)>|
            #[trigger] sorted_by_key(s) && s.to_multiset() == known_pairs(
                self.table(),
                game.box_list(),
                game.box_list().len() as int,
            ).to_multiset() && c == Cost(greedy_cost(self.table(), game.box_list(), s))
    }
    /// Distances by pushes to each goal.
    fn new_push(game: &Game) -> (r: Self)
        ensures
            distance_table(*game, true, r.table()),
    {
        let distances = compute_push_distances(game);
        GreedyHeuristic { distances }
    }

    /// Distances by pulls to each goal.
    fn new_pull(game: &Game) -> (r: Self)
        ensures
            distance_table(*game, false, r.table()),
    {
        let distances = compute_pull_distances(game);
        GreedyHeuristic { distances }
    }

    /// Matches boxes and destinations greedily, closest pairs first, then adds
    /// the larger of two lower bounds for what is left unmatched. The totals
    /// are kept in 16 bits and wrap around. The pairs come in the order of
    /// their distances; which of two pairs at the same distance comes first is
    /// left to the sort.
    fn compute(&self, game: &Game) -> (r: Cost)
        ensures
            exists|s: Seq<(u16, Index, Index)>|
                #[trigger] sorted_by_key(s) && s.to_multiset() == known_pairs(
                    self.table(),
                    game.box_list(),
                    game.box_list().len() as int,
                ).to_multiset() && r == Cost(greedy_cost(self.table(), game.box_list(), s)),
    {
        proof {
            use_type_invariant(self);
            game.lemma_wf_core();
            game.lemma_wf();
        }
        let ghost ds = self.distances@;
        let boxes = game.box_positions();
        let box_count = boxes.len();
        let ghost bl = boxes@;
        let ghost n = box_count as int;
        // Compute all pairs of distances between boxes <-> destinations
        let mut all_pairs: ArrayVec<(u16, Index, Index), 4096> = pairs_new();
        let mut box_idx: usize = 0;
        while box_idx < box_count
            invariant
                ds == self.distances@,
                ds.len() == table_len(),
                bl == boxes@,
                box_count == bl.len(),
                n == box_count,
                box_count <= 64,
                forall|j: int| 0 <= j < bl.len() ==> on_grid(#[trigger] bl[j]),
                box_idx <= box_count,
                pair_list(all_pairs).len() <= box_idx * box_count,
                pair_list(all_pairs) == known_pairs(ds, bl, box_idx as int),
                forall|j: int|
                    0 <= j < pair_list(all_pairs).len() ==> (#[trigger] pair_list(all_pairs)[j]).1.0 < box_count && pair_list(all_pairs)[j].2.0
                        < box_count,
            decreases box_count - box_idx,
        {
            let pos = boxes[box_idx];
            proof {
                lemma_cell_grid_pos(pos);
            }
            let ghost base = pair_list(all_pairs);
            let mut dst_idx: usize = 0;
            while dst_idx < box_count
                invariant
                    ds == self.distances@,
                    ds.len() == table_len(),
                    bl == boxes@,
                    box_count == bl.len(),
                    box_count <= 64,
                    box_idx < box_count,
                    pos == bl[box_idx as int],
                    on_grid(pos),
                    dst_idx <= box_count,
                    pair_list(all_pairs).len() <= box_idx * box_count + dst_idx,
                    base == known_pairs(ds, bl, box_idx as int),
                    pair_list(all_pairs) == base + row_pairs(ds, bl, box_idx as int, dst_idx as int),
                    forall|j: int|
                        0 <= j < pair_list(all_pairs).len() ==> (#[trigger] pair_list(all_pairs)[j]).1.0 < box_count
                            && pair_list(all_pairs)[j].2.0 < box_count,
                decreases box_count - dst_idx,
            {
                let distance = self.distances[dst_idx * 4096 + pos.1 as usize * 64 + pos.0 as usize];
                proof {
                    assert(distance == dist(ds, dst_idx as int, pos));
                }
                if distance < u16::MAX {
                    proof {
                        assert(box_idx * box_count + dst_idx < 4096) by (nonlinear_arith)
                            requires
                                box_idx < box_count,
                                dst_idx < box_count,
                                box_count <= 64,
                        {
                            assert(box_idx * box_count <= (box_count - 1) * box_count);
                            assert(box_count * box_count <= 4096);
                        }
                    }
                    pairs_push(&mut all_pairs, (distance, Index(box_idx as u8), Index(dst_idx as u8)));
                }
                proof {
                    assert(pair_list(all_pairs) =~= base + row_pairs(ds, bl, box_idx as int, dst_idx + 1));
                }
                dst_idx = dst_idx + 1;
            }
            proof {
                assert((box_idx + 1) * box_count == box_idx * box_count + box_count) by (nonlinear_arith);
                assert(pair_list(all_pairs) =~= known_pairs(ds, bl, box_idx + 1));
            }
            box_idx = box_idx + 1;
        }
        proof {
            assert(box_count * box_count <= 64 * 64) by (nonlinear_arith)
                requires
                    box_count <= 64,
            ;
        }
        // Perform counting sort over distances (testing w/ built-in sorts
        // indicate they are too slow in comparison)
        let ghost before = pair_list(all_pairs);
        counting_sort(&mut all_pairs);
        let ghost sorted = pair_list(all_pairs);
        proof {
            broadcast use vstd::seq_lib::to_multiset_contains;

            assert forall|jj: int| 0 <= jj < pair_list(all_pairs).len() implies (#[trigger] pair_list(all_pairs)[jj]).1.0 < box_count
                && pair_list(all_pairs)[jj].2.0 < box_count by {
                let x = pair_list(all_pairs)[jj];
                assert(pair_list(all_pairs).contains(x));
                assert(before.to_multiset().count(x) > 0);
                assert(before.contains(x));
                let q = choose|q: int| 0 <= q < before.len() && before[q] == x;
            }
        }
        // Walk through sorted pairs and start matching things up
        let mut total_distance: u16 = 0;
        let mut unmatched_boxes = Bitvector::full(box_count as u8);
        let mut unmatched_dsts = Bitvector::full(box_count as u8);
        let mut j: usize = 0;
        while j < pairs_len(&all_pairs)
            invariant
                pair_list(all_pairs) == sorted,
                j <= pair_list(all_pairs).len(),
                box_count <= 64,
                n == box_count,
                forall|jj: int|
                    0 <= jj < pair_list(all_pairs).len() ==> (#[trigger] pair_list(all_pairs)[jj]).1.0 < box_count
                        && pair_list(all_pairs)[jj].2.0 < box_count,
                greedy_match(sorted, j as int).0 == total_distance,
                forall|i: int| #[trigger]
                    unmatched_boxes@.contains(i) <==> 0 <= i < n && !greedy_match(sorted, j as int).1.contains(i),
                forall|i: int| #[trigger]
                    unmatched_dsts@.contains(i) <==> 0 <= i < n && !greedy_match(sorted, j as int).2.contains(i),
            decreases pair_list(all_pairs).len() - j,
        {
            let (distance, b, d) = pairs_get(&all_pairs, j);
            proof {
                assert(sorted[j as int] == (distance, b, d));
            }
            if unmatched_boxes.contains(b) && unmatched_dsts.contains(d) {
                total_distance = total_distance.wrapping_add(distance);
                unmatched_boxes.remove(b);
                unmatched_dsts.remove(d);
            }
            j = j + 1;
        }
        let ghost g = greedy_match(sorted, sorted.len() as int);
        let ghost box_near = |i: int| nearest_dst(ds, bl[i], n);
        let ghost dst_near = |k: int| nearest_box(ds, bl, k, n);
        let ghost left_boxes = Set::new(|i: int| 0 <= i < n && !g.1.contains(i));
        let ghost left_dsts = Set::new(|k: int| 0 <= k < n && !g.2.contains(k));
        proof {
            assert(unmatched_boxes@ =~= left_boxes);
            assert(unmatched_dsts@ =~= left_dsts);
            assert(sorted.to_multiset() == known_pairs(ds, bl, n).to_multiset());
            lemma_set_total_empty(box_near, n);
            lemma_set_total_empty(dst_near, n);
        }
        // Compute distance lower bound for unmatched boxes -> goals
        let mut unmatched_box_to_dst: u16 = 0;
        let mut it = unmatched_boxes.iter();
        let ghost mut visited: Set<int> = Set::empty();
        loop
            invariant
                ds == self.distances@,
                ds.len() == table_len(),
                box_count == boxes@.len(),
                bl == boxes@,
                boxes@ == game.box_list(),
                n == box_count,
                box_count <= 64,
                forall|jj: int| 0 <= jj < boxes@.len() ==> on_grid(#[trigger] boxes@[jj]),
                forall|i: int| #[trigger] it@.contains(i) ==> left_boxes.contains(i),
                forall|i: int| #[trigger] visited.contains(i) ==> left_boxes.contains(i) && !it@.contains(i),
                forall|i: int| #[trigger] left_boxes.contains(i) ==> visited.contains(i) || it@.contains(i),
                forall|i: int| #[trigger] visited.contains(i) ==> box_near(i) != u16::MAX,
                unmatched_box_to_dst as int == set_total(box_near, visited, n) % 65536,
                box_near == (|i: int| nearest_dst(ds, bl[i], n)),
                g == greedy_match(sorted, sorted.len() as int),
                sorted_by_key(sorted),
                sorted.to_multiset() == known_pairs(ds, bl, n).to_multiset(),
                bl == game.box_list(),
                left_boxes == Set::new(|i: int| 0 <= i < n && !g.1.contains(i)),
            ensures
                visited == left_boxes,
            decreases it@.len(),
        {
            proof {
                it.lemma_bounded();
            }
            let next = it.next();
            let box_idx = match next {
                Some(b) => b,
                None => {
                    proof {
                        assert(visited =~= left_boxes);
                    }
                    break;
                },
            };
            let pos = game.box_position(box_idx);
            proof {
                lemma_cell_grid_pos(pos);
            }
            let mut min_distance = u16::MAX;
            let mut dst_idx: usize = 0;
            while dst_idx < box_count
                invariant
                    ds == self.distances@,
                    ds.len() == table_len(),
                    box_count <= 64,
                    on_grid(pos),
                    dst_idx <= box_count,
                    min_distance == nearest_dst(ds, pos, dst_idx as int),
                decreases box_count - dst_idx,
            {
                let distance = self.distances[dst_idx * 4096 + pos.1 as usize * 64 + pos.0 as usize];
                if distance < min_distance {
                    min_distance = distance;
                }
                dst_idx = dst_idx + 1;
            }
            proof {
                assert(box_near(box_idx.0 as int) == min_distance);
            }
            if min_distance == u16::MAX {
                proof {
                    assert(left_boxes.contains(box_idx.0 as int) && nearest_dst(ds, bl[box_idx.0 as int], n) == u16::MAX);
                    assert(greedy_cost(ds, bl, sorted) == u16::MAX);
                    assert(sorted_by_key(sorted));
                }
                return Cost::unsolvable();
            }
            proof {
                lemma_set_total_insert(box_near, visited, box_idx.0 as int, n);
                visited = visited.insert(box_idx.0 as int);
            }
            unmatched_box_to_dst = unmatched_box_to_dst.wrapping_add(min_distance);
        }
        // Compute distance lower bound for unmatched goals -> boxes
        let mut unmatched_dst_to_box: u16 = 0;
        let mut it = unmatched_dsts.iter();
        let ghost mut visited: Set<int> = Set::empty();
        loop
            invariant
                ds == self.distances@,
                ds.len() == table_len(),
                box_count == boxes@.len(),
                bl == boxes@,
                n == box_count,
                box_count <= 64,
                forall|jj: int| 0 <= jj < boxes@.len() ==> on_grid(#[trigger] boxes@[jj]),
                forall|i: int| #[trigger] it@.contains(i) ==> left_dsts.contains(i),
                forall|i: int| #[trigger] visited.contains(i) ==> left_dsts.contains(i) && !it@.contains(i),
                forall|i: int| #[trigger] left_dsts.contains(i) ==> visited.contains(i) || it@.contains(i),
                forall|i: int| #[trigger] visited.contains(i) ==> dst_near(i) != u16::MAX,
                unmatched_dst_to_box as int == set_total(dst_near, visited, n) % 65536,
                dst_near == (|k: int| nearest_box(ds, bl, k, n)),
                g == greedy_match(sorted, sorted.len() as int),
                sorted_by_key(sorted),
                sorted.to_multiset() == known_pairs(ds, bl, n).to_multiset(),
                bl == game.box_list(),
                left_dsts == Set::new(|k: int| 0 <= k < n && !g.2.contains(k)),
            ensures
                visited == left_dsts,
            decreases it@.len(),
        {
            proof {
                it.lemma_bounded();
            }
            let next = it.next();
            let dst_idx = match next {
                Some(d) => d,
                None => {
                    proof {
                        assert(visited =~= left_dsts);
                    }
                    break;
                },
            };
            let mut min_distance = u16::MAX;
            let mut k: usize = 0;
            while k < box_count
                invariant
                    ds == self.distances@,
                    ds.len() == table_len(),
                    box_count == boxes@.len(),
                    bl == boxes@,
                    box_count <= 64,
                    forall|jj: int| 0 <= jj < boxes@.len() ==> on_grid(#[trigger] boxes@[jj]),
                    (dst_idx.0 as int) < box_count,
                    k <= box_count,
                    min_distance == nearest_box(ds, bl, dst_idx.0 as int, k as int),
                decreases box_count - k,
            {
                let pos = boxes[k];
                proof {
                    lemma_cell_grid_pos(pos);
                }
                let distance = self.distances[dst_idx.0 as usize * 4096 + pos.1 as usize * 64
                    + pos.0 as usize];
                if distance < min_distance {
                    min_distance = distance;
                }
                k = k + 1;
            }
            proof {
                assert(dst_near(dst_idx.0 as int) == min_distance);
            }
            if min_distance == u16::MAX {
                proof {
                    assert(left_dsts.contains(dst_idx.0 as int) && nearest_box(ds, bl, dst_idx.0 as int, n) == u16::MAX);
                    assert(greedy_cost(ds, bl, sorted) == u16::MAX);
                    assert(sorted_by_key(sorted));
                }
                return Cost::unsolvable();
            }
            proof {
                lemma_set_total_insert(dst_near, visited, dst_idx.0 as int, n);
                visited = visited.insert(dst_idx.0 as int);
            }
            unmatched_dst_to_box = unmatched_dst_to_box.wrapping_add(min_distance);
        }
        // Add distance for unmatched boxes <-> goals (pick whichever lower
        // bound is higher)
        let larger = if unmatched_box_to_dst >= unmatched_dst_to_box {
            unmatched_box_to_dst
        } else {
            unmatched_dst_to_box
        };
        total_distance = total_distance.wrapping_add(larger);
        proof {
            assert(greedy_cost(ds, bl, sorted) == total_distance);
            assert(sorted_by_key(sorted));
        }
        Cost(total_distance)
    }
}

/// A heuristic that matches boxes to destinations at the least total
/// distance, by the Hungarian algorithm.
pub struct HungarianHeuristic {
    /// distances[idx * 4096 + y * 64 + x] = minimum pushes/pulls to get a box
    /// from (x, y) to destination idx
    distances: Vec<u16>,
}

impl HungarianHeuristic {
    #[verifier::type_invariant]
    spec fn inv(&self) -> bool {
        self.distances@.len() == table_len()
    }
}

/// The total distance when box `b` goes to destination `s[b]`, over the
/// first `k` boxes.
pub open spec fn box_assignment_cost(ds: Seq<u16>, boxes: Seq<Position>, s: Seq<int>, k: int) -> int
    decreases k,
{
    if k <= 0 {
        0
    } else {
        box_assignment_cost(ds, boxes, s, k - 1) + dist(ds, s[k - 1], boxes[k - 1]) as int
    }
}

/// A matrix whose entry (b, d) is the distance of box `b` to destination `d`
/// gives each assignment that total.
proof fn lemma_matrix_cost(m: &ArrayMatrix<u16, 4096>, ds: Seq<u16>, boxes: Seq<Position>, s: Seq<int>, n: int, k: int)
    requires
        is_assignment(s, n),
        0 <= k <= n,
        forall|bb: int, dd: int| 0 <= bb < n && 0 <= dd < n ==> #[trigger] m.spec_get(bb, dd) == dist(ds, dd, boxes[bb]),
    ensures
        assignment_cost(m, s, k) == box_assignment_cost(ds, boxes, s, k),
    decreases k,
{
    if k > 0 {
        lemma_matrix_cost(m, ds, boxes, s, n, k - 1);
        assert(0 <= s[k - 1] < n);
        assert(m.spec_get(k - 1, s[k - 1]) == dist(ds, s[k - 1], boxes[k - 1]));
    }
}

impl HungarianHeuristic {
    pub closed spec fn table(&self) -> Seq<u16> {
        self.distances@
    }
}

impl Heuristic for HungarianHeuristic {
    open spec fn made_for(&self, game: Game, forward: bool) -> bool {
        distance_table(game, forward, self.table())
    }

    open spec fn gives(&self, game: Game, c: Cost) -> bool {
        &&& game.box_list().len() == 0 ==> c == Cost(0)
        &&& c.0 < u16::MAX ==> forall|s: Seq<int>|
            is_assignment(s, game.box_list().len() as int) ==> c.0 <= #[trigger] box_assignment_cost(
                self.table(),
                game.box_list(),
                s,
                game.box_list().len() as int,
            )
        &&& c.0 < u16::MAX ==> exists|s: Seq<int>|
            is_assignment(s, game.box_list().len() as int) && #[trigger] box_assignment_cost(
                self.table(),
                game.box_list(),
                s,
                game.box_list().len() as int,
            ) == c.0
        &&& c.0 == u16::MAX ==> forall|s: Seq<int>|
            is_assignment(s, game.box_list().len() as int) ==> #[trigger] box_assignment_cost(
                self.table(),
                game.box_list(),
                s,
                game.box_list().len() as int,
            ) >= u16::MAX
    }
    /// Distances by pushes to each goal.
    fn new_push(game: &Game) -> (r: Self)
        ensures
            distance_table(*game, true, r.table()),
    {
        let distances = compute_push_distances(game);
        HungarianHeuristic { distances }
    }

    /// Distances by pulls to each goal.
    fn new_pull(game: &Game) -> (r: Self)
        ensures
            distance_table(*game, false, r.table()),
    {
        let distances = compute_pull_distances(game);
        HungarianHeuristic { distances }
    }

    /// The least total distance of an assignment of boxes to destinations,
    /// by the Hungarian algorithm; an assignment that needs an unreachable
    /// destination costs at least the maximum, which stands for unsolvable.
    /// Below the maximum, the estimate is the total distance of some
    /// assignment and at most that of every other; the maximum comes exactly
    /// when every assignment costs at least the maximum.
    fn compute(&self, game: &Game) -> (r: Cost)
        ensures
            r.0 < u16::MAX ==> forall|s: Seq<int>|
                is_assignment(s, game.box_list().len() as int) ==> r.0 <= #[trigger] box_assignment_cost(
                    self.table(),
                    game.box_list(),
                    s,
                    game.box_list().len() as int,
                ),
            r.0 < u16::MAX ==> exists|s: Seq<int>|
                is_assignment(s, game.box_list().len() as int) && #[trigger] box_assignment_cost(
                    self.table(),
                    game.box_list(),
                    s,
                    game.box_list().len() as int,
                ) == r.0,
            r.0 == u16::MAX ==> forall|s: Seq<int>|
                is_assignment(s, game.box_list().len() as int) ==> #[trigger] box_assignment_cost(
                    self.table(),
                    game.box_list(),
                    s,
                    game.box_list().len() as int,
                ) >= u16::MAX,
            game.box_list().len() == 0 ==> r == Cost(0),
    {
        proof {
            use_type_invariant(self);
            game.lemma_wf_core();
            game.lemma_wf();
        }
        let ghost ds = self.distances@;
        let boxes = game.box_positions();
        let ghost bl = boxes@;
        let n = boxes.len();
        let mut matrix: ArrayMatrix<u16, 4096> = ArrayMatrix::new(n, n);
        let mut b: usize = 0;
        while b < n
            invariant
                ds == self.distances@,
                self.distances@.len() == table_len(),
                bl == boxes@,
                n == boxes@.len(),
                n <= 64,
                forall|j: int| 0 <= j < boxes@.len() ==> on_grid(#[trigger] boxes@[j]),
                b <= n,
                matrix.spec_rows() == n,
                matrix.spec_cols() == n,
                matrix.entries().len() == b * n,
                forall|bb: int, dd: int|
                    0 <= bb < b && 0 <= dd < n ==> #[trigger] matrix.spec_get(bb, dd) == dist(ds, dd, bl[bb]),
            decreases n - b,
        {
            let pos = boxes[b];
            proof {
                lemma_cell_grid_pos(pos);
            }
            let mut d: usize = 0;
            while d < n
                invariant
                    ds == self.distances@,
                    self.distances@.len() == table_len(),
                    bl == boxes@,
                    n == boxes@.len(),
                    n <= 64,
                    b < n,
                    pos == bl[b as int],
                    on_grid(pos),
                    d <= n,
                    matrix.spec_rows() == n,
                    matrix.spec_cols() == n,
                    matrix.entries().len() == b * n + d,
                    forall|bb: int, dd: int|
                        (0 <= bb < b && 0 <= dd < n) || (bb == b && 0 <= dd < d) ==> #[trigger] matrix.spec_get(
                            bb,
                            dd,
                        ) == dist(ds, dd, bl[bb]),
                decreases n - d,
            {
                proof {
                    assert(b * n + d < n * n) by (nonlinear_arith)
                        requires
                            b < n,
                            d < n,
                    {
                        assert((b + 1) * n <= n * n);
                    }
                    assert(n * n <= 4096) by (nonlinear_arith)
                        requires
                            n <= 64,
                    ;
                }
                let ghost e0 = matrix.entries();
                let ghost m0 = matrix;
                let x = self.distances[d * 4096 + pos.1 as usize * 64 + pos.0 as usize];
                matrix.push(x);
                proof {
                    assert(x == dist(ds, d as int, pos));
                    assert forall|bb: int, dd: int|
                        (0 <= bb < b && 0 <= dd < n) || (bb == b && 0 <= dd < d + 1) implies #[trigger] matrix.spec_get(
                            bb,
                            dd,
                        ) == dist(ds, dd, bl[bb]) by {
                        if bb == b && dd == d {
                            assert(bb * n + dd == b * n + d);
                        } else {
                            assert(0 <= bb * n + dd < b * n + d) by (nonlinear_arith)
                                requires
                                    (0 <= bb < b && 0 <= dd < n) || (bb == b && 0 <= dd < d),
                                    d < n,
                            {
                                if bb < b {
                                    assert((bb + 1) * n <= b * n);
                                }
                            }
                            assert(matrix.entries()[bb * n + dd] == e0[bb * n + dd]);
                            assert(m0.spec_get(bb, dd) == dist(ds, dd, bl[bb]));
                        }
                    }
                }
                d = d + 1;
            }
            proof {
                assert((b + 1) * n == b * n + n) by (nonlinear_arith);
            }
            b = b + 1;
        }
        let total = hungarian_algorithm(&matrix);
        proof {
            assert(bl == game.box_list());
            assert(ds == self.table());
            assert forall|s: Seq<int>| total < u16::MAX && is_assignment(s, n as int) implies total
                <= #[trigger] box_assignment_cost(ds, bl, s, n as int) by {
                lemma_matrix_cost(&matrix, ds, bl, s, n as int, n as int);
                assert(matrix.spec_shape().0 == n);
                assert(total <= assignment_cost(&matrix, s, matrix.spec_shape().0));
            }
            assert forall|s: Seq<int>| total == u16::MAX && is_assignment(s, n as int) implies #[trigger] box_assignment_cost(
                ds,
                bl,
                s,
                n as int,
            ) >= u16::MAX by {
                lemma_matrix_cost(&matrix, ds, bl, s, n as int, n as int);
                assert(matrix.spec_shape().0 == n);
                assert(assignment_cost(&matrix, s, matrix.spec_shape().0) >= u16::MAX);
            }
            if total < u16::MAX {
                assert(matrix.spec_shape().0 == n);
                let s = choose|s: Seq<int>| is_assignment(s, n as int) && #[trigger] assignment_cost(&matrix, s, n as int)
                    == total;
                lemma_matrix_cost(&matrix, ds, bl, s, n as int, n as int);
                assert(box_assignment_cost(ds, bl, s, n as int) == total);
            }
        }
        Cost(total)
    }
}

/// A table with every distance unknown.
fn unknown_distances() -> (r: Vec<u16>)
    ensures
        r@.len() == table_len(),
        forall|j: int| 0 <= j < table_len() ==> #[trigger] r@[j] == u16::MAX,
{
    let mut distances: Vec<u16> = Vec::new();
    let mut k: usize = 0;
    while k < 64 * 4096
        invariant
            k <= 64 * 4096,
            distances@.len() == k,
            forall|j: int| 0 <= j < k ==> #[trigger] distances@[j] == u16::MAX,
        decreases 64 * 4096 - k,
    {
        distances.push(u16::MAX);
        k = k + 1;
    }
    distances
}

/// Compute push distances from each goal to all positions using BFS with pulls
fn compute_push_distances(game: &Game) -> (r: Vec<u16>)
    requires
        game.wf(),
    ensures
        r@.len() == table_len(),
        distance_table(*game, true, r@),
        forall|k: int| 0 <= k < game.goal_list().len() ==> dist(r@, k, #[trigger] game.goal_list()[k]) == 0,
{
    compute_distances(game, true)
}

/// Compute pull distances from each goal to all positions using BFS with pushes
fn compute_pull_distances(game: &Game) -> (r: Vec<u16>)
    requires
        game.wf(),
    ensures
        r@.len() == table_len(),
        distance_table(*game, false, r@),
        forall|k: int| 0 <= k < game.goal_list().len() ==> dist(r@, k, #[trigger] game.goal_list()[k]) == 0,
{
    compute_distances(game, false)
}

/// One search from each goal, by pulls (for push distances) or by pushes.
fn compute_distances(game: &Game, by_pulls: bool) -> (r: Vec<u16>)
    requires
        game.wf(),
    ensures
        r@.len() == table_len(),
        forall|k: int| 0 <= k < game.goal_list().len() ==> dist(r@, k, #[trigger] game.goal_list()[k]) == 0,
        distance_table(*game, by_pulls, r@),
{
    proof {
        game.lemma_wf_core();
        game.lemma_wf();
    }
    let mut distances = unknown_distances();
    let goals = game.goal_positions();
    let mut goal_idx: usize = 0;
    while goal_idx < goals.len()
        invariant
            game.wf_core(),
            goals@ == game.goal_list(),
            goals@.len() <= 64,
            forall|j: int| 0 <= j < goals@.len() ==> on_grid(#[trigger] goals@[j]),
            goal_idx <= goals@.len(),
            distances@.len() == table_len(),
            forall|j: int| goal_idx * 4096 <= j < table_len() ==> #[trigger] distances@[j] == u16::MAX,
            forall|k: int| 0 <= k < goal_idx ==> dist(distances@, k, #[trigger] goals@[k]) == 0,
            forall|k: int, q: Position|
                0 <= k < goal_idx && on_grid(q) ==> distance_ok(
                    bfs_step(*game, by_pulls),
                    goals@[k],
                    q,
                    #[trigger] dist(distances@, k, q),
                ),
        decreases goals@.len() - goal_idx,
    {
        let goal_pos = goals[goal_idx];
        let ghost before = distances@;
        if by_pulls {
            bfs_pulls(game, goal_pos, &mut distances, goal_idx * 4096);
        } else {
            bfs_pushes(game, goal_pos, &mut distances, goal_idx * 4096);
        }
        proof {
            assert forall|k: int| 0 <= k < goal_idx + 1 implies dist(distances@, k, #[trigger] goals@[k]) == 0 by {
                if k < goal_idx {
                    lemma_cell_grid_pos(goals@[k]);
                    assert(distances@[k * 4096 + cell(goals@[k])] == before[k * 4096 + cell(goals@[k])]);
                }
            }
            assert forall|k: int, q: Position| 0 <= k < goal_idx + 1 && on_grid(q) implies distance_ok(
                bfs_step(*game, by_pulls),
                goals@[k],
                q,
                #[trigger] dist(distances@, k, q),
            ) by {
                lemma_cell_grid_pos(q);
                if k < goal_idx {
                    assert(distances@[k * 4096 + cell(q)] == before[k * 4096 + cell(q)]);
                    assert(distance_ok(bfs_step(*game, by_pulls), goals@[k], q, dist(before, k, q)));
                } else {
                    assert(distance_ok(bfs_step(*game, by_pulls), goals@[k], q, distances@[goal_idx * 4096 + cell(q)]));
                }
            }
        }
        goal_idx = goal_idx + 1;
    }
    distances
}

/// The square where a box lands when it is pulled from `q` with the player
/// moving in direction `e`, if the pull is possible: the box's new square and
/// the player's new square are on the board and not walls.
pub open spec fn pull_target(g: &Game, q: Position, e: Direction) -> Option<Position> {
    match g.neighbor(q, e) {
        Some(b) => match g.neighbor(b, e) {
            Some(pl) => if g.spec_tile(b) != Tile::Wall && g.spec_tile(pl) != Tile::Wall {
                Some(b)
            } else {
                None
            },
            None => None,
        },
        None => None,
    }
}

/// The square where a box lands when it is pushed from `q` in direction `e`,
/// if the push is possible: the box's new square and the player's square
/// behind the box are on the board and not walls.
pub open spec fn push_target(g: &Game, q: Position, e: Direction) -> Option<Position> {
    match g.neighbor(q, e) {
        Some(b) => match g.neighbor(q, opposite(e)) {
            Some(pl) => if g.spec_tile(b) != Tile::Wall && g.spec_tile(pl) != Tile::Wall {
                Some(b)
            } else {
                None
            },
            None => None,
        },
        None => None,
    }
}

/// The first of the four directions in the order the searches try them.
fn direction_at(k: usize) -> (r: Direction)
    requires
        k < 4,
    ensures
        r == dir_at(k as int),
{
    Direction::from_index(k)
}

/// BFS using pulls to compute distances from a goal position
fn bfs_pulls(game: &Game, goal_pos: Position, distances: &mut Vec<u16>, base: usize)
    requires
        game.wf_core(),
        on_grid(goal_pos),
        old(distances)@.len() == table_len(),
        base % 4096 == 0,
        base + 4096 <= table_len(),
        forall|j: int| base <= j < base + 4096 ==> #[trigger] old(distances)@[j] == u16::MAX,
    ensures
        final(distances)@.len() == table_len(),
        final(distances)@[base + cell(goal_pos)] == 0,
        forall|j: int| 0 <= j < table_len() && !(base <= j < base + 4096) ==> #[trigger] final(distances)@[j]
            == old(distances)@[j],
        forall|q: Position|
            on_grid(q) ==> distance_ok(bfs_step(*game, true), goal_pos, q, #[trigger] final(distances)@[base + cell(q)]),
{
    bfs(game, goal_pos, distances, base, true)
}

/// BFS using pushes to compute distances from a box start position
fn bfs_pushes(game: &Game, start_pos: Position, distances: &mut Vec<u16>, base: usize)
    requires
        game.wf_core(),
        on_grid(start_pos),
        old(distances)@.len() == table_len(),
        base % 4096 == 0,
        base + 4096 <= table_len(),
        forall|j: int| base <= j < base + 4096 ==> #[trigger] old(distances)@[j] == u16::MAX,
    ensures
        final(distances)@.len() == table_len(),
        final(distances)@[base + cell(start_pos)] == 0,
        forall|j: int| 0 <= j < table_len() && !(base <= j < base + 4096) ==> #[trigger] final(distances)@[j]
            == old(distances)@[j],
        forall|q: Position|
            on_grid(q) ==> distance_ok(bfs_step(*game, false), start_pos, q, #[trigger] final(distances)@[base + cell(q)]),
{
    bfs(game, start_pos, distances, base, false)
}

/// A table of distances to each goal `k` of the game: the least number of
/// steps (pulls from the goal where `by_pulls`, else pushes) that reach each
/// square from goal `k`, or `u16::MAX` where none does.
pub open spec fn distance_table(g: Game, by_pulls: bool, ds: Seq<u16>) -> bool {
    &&& ds.len() == table_len()
    &&& forall|k: int, q: Position|
        0 <= k < g.goal_list().len() && on_grid(q) ==> distance_ok(
            bfs_step(g, by_pulls),
            g.goal_list()[k],
            q,
            #[trigger] dist(ds, k, q),
        )
}

/// One step of the searches behind the distance tables, in direction number
/// `k`: a pull of the box (the search from a goal, which measures pushes
/// towards it) or a push.
pub open spec fn bfs_step(g: Game, by_pulls: bool) -> spec_fn(Position, int) -> Option<Position> {
    |p: Position, k: int|
        if by_pulls {
            pull_target(&g, p, opposite(dir_at(k)))
        } else {
            push_target(&g, p, dir_at(k))
        }
}

/// The breadth-first search behind both: the number of pulls (or pushes)
/// that bring a box from the start to each square, ignoring other boxes.
#[verifier::spinoff_prover]
#[verifier::rlimit(60)]
fn bfs(game: &Game, start: Position, distances: &mut Vec<u16>, base: usize, by_pulls: bool)
    requires
        game.wf_core(),
        on_grid(start),
        old(distances)@.len() == table_len(),
        base % 4096 == 0,
        base + 4096 <= table_len(),
        forall|j: int| base <= j < base + 4096 ==> #[trigger] old(distances)@[j] == u16::MAX,
    ensures
        final(distances)@.len() == table_len(),
        final(distances)@[base + cell(start)] == 0,
        forall|j: int| 0 <= j < table_len() && !(base <= j < base + 4096) ==> #[trigger] final(distances)@[j]
            == old(distances)@[j],
        forall|q: Position|
            on_grid(q) ==> distance_ok(bfs_step(*game, by_pulls), start, q, #[trigger] final(distances)@[base + cell(q)]),
{
    let ghost d0 = distances@;
    let ghost st = bfs_step(*game, by_pulls);
    let mut queue: VecDeque<Position> = VecDeque::new();
    queue.push_back(start);
    proof {
        lemma_cell_grid_pos(start);
    }
    distances.set(base + start.1 as usize * 64 + start.0 as usize, 0);
    let ghost mut seen: Set<Position> = set![start];
    proof {
        lemma_count_missing_insert(Set::empty(), start, 4096);
        assert(Set::<Position>::empty().insert(start) == seen);
        crate::reach::lemma_count_missing_empty(4096);
        assert(within_steps(st, start, 0) =~= set![start]);
        assert(least_steps(st, start, start, 0));
        assert(queue@[0] == start);
    }
    while queue.len() > 0
        invariant
            game.wf_core(),
            on_grid(start),
            st == bfs_step(*game, by_pulls),
            distances@.len() == table_len(),
            base % 4096 == 0,
            base + 4096 <= table_len(),
            distances@[base + cell(start)] == 0,
            forall|j: int| 0 <= j < table_len() && !(base <= j < base + 4096) ==> #[trigger] distances@[j] == d0[j],
            forall|p: Position| #[trigger] seen.contains(p) ==> on_grid(p),
            forall|p: Position| on_grid(p) ==> (seen.contains(p) <==> #[trigger] distances@[base + cell(p)] != u16::MAX),
            forall|i: int| 0 <= i < queue@.len() ==> seen.contains(#[trigger] queue@[i]),
            forall|p: Position| #[trigger] seen.contains(p) ==> distances@[base + cell(p)] + count_missing(seen, 4096) < 4096,
            count_missing(seen, 4096) + queue@.len() <= 4096,
            queue@.no_duplicates(),
            forall|i: int, j: int|
                0 <= i < j < queue@.len() ==> distances@[base + cell(#[trigger] queue@[i])] <= distances@[base
                    + cell(#[trigger] queue@[j])],
            queue@.len() > 0 ==> forall|i: int|
                0 <= i < queue@.len() ==> distances@[base + cell(#[trigger] queue@[i])] <= distances@[base
                    + cell(queue@[0])] + 1,
            forall|p: Position| #[trigger] seen.contains(p) ==> least_steps(st, start, p, distances@[base + cell(p)] as nat),
            forall|p: Position, k: int|
                #![trigger seen.contains(p), st(p, k)]
                seen.contains(p) && !queue@.contains(p) && 0 <= k < 4 && st(p, k) is Some ==> seen.contains(
                    st(p, k)->0,
                ),
            queue@.len() > 0 ==> forall|q: Position|
                !seen.contains(q) ==> !#[trigger] within_steps(
                    st,
                    start,
                    distances@[base + cell(queue@[0])] as nat,
                ).contains(q),
            queue@.len() == 0 ==> forall|p: Position, k: int|
                #![trigger seen.contains(p), st(p, k)]
                seen.contains(p) && 0 <= k < 4 && st(p, k) is Some ==> seen.contains(st(p, k)->0),
        decreases 2 * count_missing(seen, 4096) + queue@.len(),
    {
        let ghost m0 = 2 * count_missing(seen, 4096) + queue@.len();
        let ghost q0 = queue@;
        let box_pos = queue.pop_front().unwrap();
        proof {
            assert(q0[0] == box_pos);
            assert(seen.contains(q0[0]));
            assert forall|i: int| 0 <= i < queue@.len() implies seen.contains(#[trigger] queue@[i]) by {
                assert(queue@[i] == q0[i + 1]);
            }
            lemma_cell_grid_pos(box_pos);
            assert(queue@ == q0.drop_first());
            assert(!queue@.contains(box_pos)) by {
                if queue@.contains(box_pos) {
                    let i = choose|i: int| 0 <= i < queue@.len() && queue@[i] == box_pos;
                    assert(q0[i + 1] == q0[0]);
                }
            }
            assert forall|p: Position| seen.contains(p) && !queue@.contains(p) && p != box_pos implies !q0.contains(
                p,
            ) by {
                if q0.contains(p) {
                    let i = choose|i: int| 0 <= i < q0.len() && q0[i] == p;
                    if i > 0 {
                        assert(queue@[i - 1] == p);
                    }
                }
            }
        }
        let dist = distances[base + box_pos.1 as usize * 64 + box_pos.0 as usize];
        let ghost lv = dist as nat;
        proof {
            assert forall|i: int| 0 <= i < queue@.len() implies lv <= distances@[base + cell(#[trigger] queue@[i])]
                <= lv + 1 by {
                assert(queue@[i] == q0[i + 1]);
                assert(distances@[base + cell(q0[0])] <= distances@[base + cell(q0[i + 1])]);
            }
            assert(within_steps(st, start, lv).contains(box_pos));
        }
        let mut k: usize = 0;
        while k < 4
            invariant
                game.wf_core(),
                on_grid(start),
                on_grid(box_pos),
                st == bfs_step(*game, by_pulls),
                dist != u16::MAX,
                lv == dist as nat,
                k <= 4,
                distances@.len() == table_len(),
                base % 4096 == 0,
                base + 4096 <= table_len(),
                distances@[base + cell(start)] == 0,
                distances@[base + cell(box_pos)] == dist,
                forall|j: int| 0 <= j < table_len() && !(base <= j < base + 4096) ==> #[trigger] distances@[j] == d0[j],
                forall|p: Position| #[trigger] seen.contains(p) ==> on_grid(p),
                forall|p: Position| on_grid(p) ==> (seen.contains(p) <==> #[trigger] distances@[base + cell(p)] != u16::MAX),
                forall|i: int| 0 <= i < queue@.len() ==> seen.contains(#[trigger] queue@[i]),
                forall|p: Position| #[trigger] seen.contains(p) ==> distances@[base + cell(p)] + count_missing(seen, 4096) < 4096,
                dist + count_missing(seen, 4096) < 4096,
                count_missing(seen, 4096) + queue@.len() <= 4095,
                2 * count_missing(seen, 4096) + queue@.len() < m0,
                seen.contains(box_pos),
                !queue@.contains(box_pos),
                queue@.no_duplicates(),
                forall|i: int, j: int|
                    0 <= i < j < queue@.len() ==> distances@[base + cell(#[trigger] queue@[i])] <= distances@[base
                        + cell(#[trigger] queue@[j])],
                forall|i: int| 0 <= i < queue@.len() ==> lv <= distances@[base + cell(#[trigger] queue@[i])] <= lv + 1,
                forall|p: Position| #[trigger] seen.contains(p) ==> least_steps(st, start, p, distances@[base + cell(p)] as nat),
                forall|p: Position, kk: int|
                    #![trigger seen.contains(p), st(p, kk)]
                    seen.contains(p) && !queue@.contains(p) && p != box_pos && 0 <= kk < 4 && st(p, kk) is Some
                        ==> seen.contains(st(p, kk)->0),
                forall|kk: int| 0 <= kk < k && #[trigger] st(box_pos, kk) is Some ==> seen.contains(st(box_pos, kk)->0),
                forall|q: Position| !seen.contains(q) ==> !#[trigger] within_steps(st, start, lv).contains(q),
                within_steps(st, start, lv).contains(box_pos),
            decreases 4 - k,
        {
            let direction = direction_at(k);
            let reverse = direction.reverse();
            let (target, player) = if by_pulls {
                match game.move_position(box_pos, reverse) {
                    Some(b) => (Some(b), game.move_position(b, reverse)),
                    None => (None, None),
                }
            } else {
                (game.move_position(box_pos, direction), game.move_position(box_pos, reverse))
            };
            if let (Some(new_box_pos), Some(player_pos)) = (target, player) {
                proof {
                    game.lemma_neighbor_on_grid(box_pos, reverse);
                    game.lemma_neighbor_on_grid(box_pos, direction);
                    if by_pulls {
                        game.lemma_neighbor_on_grid(new_box_pos, reverse);
                    }
                    lemma_cell_grid_pos(new_box_pos);
                }
                let new_box_tile = game.get_tile(new_box_pos);
                let player_tile = game.get_tile(player_pos);
                let cell_new = base + new_box_pos.1 as usize * 64 + new_box_pos.0 as usize;
                let open = (new_box_tile == Tile::Floor || new_box_tile == Tile::Goal) && (player_tile == Tile::Floor
                    || player_tile == Tile::Goal);
                proof {
                    if open {
                        assert(st(box_pos, k as int) == Some(new_box_pos));
                    } else {
                        assert(st(box_pos, k as int) is None);
                    }
                }
                if open && distances[cell_new] == u16::MAX {
                    let ghost s0 = seen;
                    let ghost qq = queue@;
                    let ghost dd = distances@;
                    distances.set(cell_new, dist + 1);
                    queue.push_back(new_box_pos);
                    proof {
                        seen = seen.insert(new_box_pos);
                        lemma_count_missing_insert(s0, new_box_pos, 4096);
                        assert(!s0.contains(new_box_pos));
                        assert forall|p: Position| on_grid(p) implies (seen.contains(p) <==> #[trigger] distances@[base
                            + cell(p)] != u16::MAX) by {
                            lemma_cell_grid_pos(p);
                            if p != new_box_pos {
                                assert(cell(p) != cell(new_box_pos));
                            }
                        }
                        assert forall|i: int| 0 <= i < queue@.len() implies seen.contains(#[trigger] queue@[i]) by {
                            if i < qq.len() {
                                assert(queue@[i] == qq[i]);
                            }
                        }
                        assert(seen.contains(start));
                        assert(cell(start) != cell(new_box_pos)) by {
                            lemma_cell_grid_pos(start);
                        }
                        assert(cell(box_pos) != cell(new_box_pos));
                        assert forall|p: Position| #[trigger] seen.contains(p) implies distances@[base + cell(p)]
                            + count_missing(seen, 4096) < 4096 by {
                            lemma_cell_grid_pos(p);
                            if p != new_box_pos {
                                assert(s0.contains(p));
                                assert(cell(p) != cell(new_box_pos));
                            }
                        }
                        // Old entries keep their distances.
                        assert forall|p: Position| #[trigger] s0.contains(p) implies distances@[base + cell(p)] == dd[base
                            + cell(p)] by {
                            lemma_cell_grid_pos(p);
                            assert(cell(p) != cell(new_box_pos));
                        }
                        assert forall|i: int| 0 <= i < qq.len() implies distances@[base + cell(#[trigger] qq[i])]
                            == dd[base + cell(qq[i])] by {
                            assert(s0.contains(qq[i]));
                        }
                        assert(!qq.contains(new_box_pos));
                        assert(queue@ == qq.push(new_box_pos));
                        assert forall|i: int, j: int|
                            0 <= i < j < queue@.len() implies distances@[base + cell(#[trigger] queue@[i])]
                            <= distances@[base + cell(#[trigger] queue@[j])] by {
                            if j < qq.len() {
                                assert(queue@[i] == qq[i]);
                                assert(queue@[j] == qq[j]);
                            } else {
                                assert(queue@[i] == qq[i]);
                                assert(queue@[j] == new_box_pos);
                            }
                        }
                        assert forall|i: int| 0 <= i < queue@.len() implies lv <= distances@[base + cell(
                            #[trigger] queue@[i],
                        )] <= lv + 1 by {
                            if i < qq.len() {
                                assert(queue@[i] == qq[i]);
                            }
                        }
                        lemma_within_step(st, start, lv, box_pos, k as int);
                        assert(least_steps(st, start, new_box_pos, lv + 1));
                        assert forall|p: Position| #[trigger] seen.contains(p) implies least_steps(
                            st,
                            start,
                            p,
                            distances@[base + cell(p)] as nat,
                        ) by {
                            if p != new_box_pos {
                                assert(s0.contains(p));
                            }
                        }
                        assert forall|p: Position, kk: int|
                            #![trigger seen.contains(p), st(p, kk)]
                            seen.contains(p) && !queue@.contains(p) && p != box_pos && 0 <= kk < 4 && st(p, kk) is Some
                                implies seen.contains(st(p, kk)->0) by {
                            if p != new_box_pos {
                                assert(s0.contains(p));
                                assert(!qq.contains(p)) by {
                                    if qq.contains(p) {
                                        let i = choose|i: int| 0 <= i < qq.len() && qq[i] == p;
                                        assert(queue@[i] == p);
                                    }
                                }
                            } else {
                                assert(queue@[queue@.len() - 1] == p);
                            }
                        }
                        assert(!queue@.contains(box_pos)) by {
                            if queue@.contains(box_pos) {
                                let i = choose|i: int| 0 <= i < queue@.len() && queue@[i] == box_pos;
                                if i < qq.len() {
                                    assert(qq[i] == box_pos);
                                }
                            }
                        }
                        assert(queue@.no_duplicates()) by {
                            assert forall|i: int, j: int| 0 <= i < j < queue@.len() implies queue@[i] != queue@[j] by {
                                if j < qq.len() {
                                    assert(queue@[i] == qq[i]);
                                    assert(queue@[j] == qq[j]);
                                } else {
                                    assert(queue@[i] == qq[i]);
                                    assert(qq.contains(qq[i]));
                                }
                            }
                        }
                    }
                }
                proof {
                    assert(cell_new == base + cell(new_box_pos));
                    if open && distances@[base + cell(new_box_pos)] != u16::MAX {
                        assert(seen.contains(new_box_pos));
                    }
                    assert(st(box_pos, k as int) is None || seen.contains(st(box_pos, k as int)->0));
                }
            } else {
                proof {
                    assert(st(box_pos, k as int) is None);
                }
            }
            proof {
                assert forall|kk: int| 0 <= kk < k + 1 && #[trigger] st(box_pos, kk) is Some implies seen.contains(
                    st(box_pos, kk)->0,
                ) by {
                }
            }
            k = k + 1;
        }
        proof {
            if queue@.len() > 0 {
                let f = queue@[0];
                let lf = distances@[base + cell(f)] as nat;
                if lf == lv + 1 {
                    assert forall|q: Position| !seen.contains(q) implies !#[trigger] within_steps(st, start, lf).contains(
                        q,
                    ) by {
                        if within_steps(st, start, lf).contains(q) {
                            lemma_within_pred(st, start, lv, q);
                            let (r, d) = choose|r: Position, d: int|
                                #![trigger within_steps(st, start, lv).contains(r), st(r, d)]
                                within_steps(st, start, lv).contains(r) && 0 <= d < 4 && st(r, d) == Some(q);
                            assert(seen.contains(r));
                            let dr = distances@[base + cell(r)] as nat;
                            if dr > lv {
                                lemma_within_mono(st, start, lv, (dr - 1) as nat);
                                assert(least_steps(st, start, r, dr));
                            }
                            assert(!queue@.contains(r)) by {
                                if queue@.contains(r) {
                                    let i = choose|i: int| 0 <= i < queue@.len() && queue@[i] == r;
                                    assert(distances@[base + cell(queue@[0])] <= distances@[base + cell(queue@[i])]);
                                }
                            }
                            if r != box_pos {
                                assert(seen.contains(st(r, d)->0));
                            } else {
                                assert(st(box_pos, d) is Some);
                                assert(seen.contains(st(box_pos, d)->0));
                            }
                        }
                    }
                } else {
                    assert(lf == lv) by {
                        assert(lv <= distances@[base + cell(queue@[0])]);
                    }
                }
                assert forall|i: int| 0 <= i < queue@.len() implies distances@[base + cell(#[trigger] queue@[i])]
                    <= distances@[base + cell(queue@[0])] + 1 by {
                    assert(lv <= distances@[base + cell(queue@[0])]);
                }
            } else {
                assert forall|p: Position, kk: int|
                    #![trigger seen.contains(p), st(p, kk)]
                    seen.contains(p) && 0 <= kk < 4 && st(p, kk) is Some implies seen.contains(st(p, kk)->0) by {
                    if p != box_pos {
                        assert(!queue@.contains(p));
                    }
                }
            }
        }
    }
    proof {
        assert(closed(st, seen));
        assert forall|q: Position| on_grid(q) implies distance_ok(
            st,
            start,
            q,
            #[trigger] distances@[base + cell(q)],
        ) by {
            if !seen.contains(q) {
                assert forall|k: nat| !#[trigger] within_steps(st, start, k).contains(q) by {
                    lemma_within_closed(st, start, seen, k);
                }
            }
        }
    }
}

} // verus!
