use vstd::prelude::*;

use crate::bits::{on_grid, Position};
use crate::game::{Game, StepRule, Tile};
use crate::heuristic::{bfs_step, dist, distance_table, nearest_box, nearest_dst};
use crate::moves::{dir_at, dir_num, lemma_dir_num, opposite, Direction, Push};
use crate::reach::{closed, distance_ok, lemma_within_mono, lemma_within_step, within_steps};
use crate::solver::{plays, push_step, solves};

verus! {

/// A game met along a play from `g0`: the board of `g0`, the player and the
/// boxes on squares of the board that are not walls, no two boxes on one
/// square.
pub open spec fn on_board_of(g0: Game, g: Game) -> bool {
    &&& g.spec_width() == g0.spec_width()
    &&& g.spec_height() == g0.spec_height()
    &&& forall|p: Position| on_grid(p) ==> #[trigger] g.spec_tile(p) == g0.spec_tile(p)
    &&& g.goal_list() == g0.goal_list()
    &&& g.spec_player().0 < g.spec_width()
    &&& g.spec_player().1 < g.spec_height()
    &&& g.spec_tile(g.spec_player()) != Tile::Wall
    &&& g.box_list().len() == g0.box_list().len()
    &&& g.box_list().no_duplicates()
    &&& forall|i: int|
        0 <= i < g.box_list().len() ==> {
            let b = #[trigger] g.box_list()[i];
            &&& b.0 < g.spec_width()
            &&& b.1 < g.spec_height()
            &&& g.spec_tile(b) != Tile::Wall
        }
}

/// A step back against a step on the board returns to where it started.
proof fn lemma_neighbor_back(a: Game, p: Position, d: Direction)
    requires
        p.0 < a.spec_width(),
        p.1 < a.spec_height(),
        a.spec_width() <= 64,
        a.spec_height() <= 64,
        a.neighbor(p, d) is Some,
    ensures
        a.neighbor(a.neighbor(p, d)->0, opposite(d)) == Some(p),
        (a.neighbor(p, d)->0).0 < a.spec_width(),
        (a.neighbor(p, d)->0).1 < a.spec_height(),
{
}

/// Every square of a walk but its start is on the board and not a wall.
proof fn lemma_walk_squares(a: Game, start: Position, sq: Set<Position>)
    requires
        a.walk_region(start, sq),
    ensures
        forall|y: Position|
            #[trigger] sq.contains(y) ==> y == start || (y.0 < a.spec_width() && y.1 < a.spec_height()
                && a.spec_tile(y) != Tile::Wall),
{
    let f = a.rule_fn(StepRule::Walk);
    let t = Set::new(
        |y: Position|
            y == start || (y.0 < a.spec_width() && y.1 < a.spec_height() && a.spec_tile(y) != Tile::Wall),
    );
    assert(closed(f, t)) by {
        assert forall|p: Position, d: int| #[trigger] t.contains(p) && 0 <= d < 4 && #[trigger] f(p, d) is Some implies t.contains(
            f(p, d)->0,
        ) by {
            let to = a.neighbor(p, dir_at(d))->0;
            assert(f(p, d) == Some(to));
        }
    }
    assert(Set::<Position>::empty().insert(start).subset_of(t));
}

/// Each game of a play stays on the board of the start.
proof fn lemma_play_on_board(g0: Game, pushes: Seq<Push>, gs: Seq<Game>, j: int)
    requires
        g0.wf(),
        g0.grounded(),
        plays(g0, pushes, gs),
        0 <= j <= pushes.len(),
    ensures
        on_board_of(g0, gs[j]),
    decreases j,
{
    g0.lemma_wf_core();
    g0.lemma_wf();
    if j == 0 {
        assert(gs[0].same_state(&g0));
    } else {
        lemma_play_on_board(g0, pushes, gs, j - 1);
        let k = j - 1;
        assert(push_step(gs[k], gs[k + 1], pushes[k]));
        let a = gs[k];
        let c = gs[k + 1];
        let p = pushes[k];
        let i = p.box_index.0 as int;
        let q = a.box_list()[i];
        lemma_neighbor_back(a, q, p.direction);
        let q2 = a.neighbor(q, p.direction)->0;
        assert(c.box_list() == a.box_list().update(i, q2));
        assert(!a.box_list().contains(q2)) by {
            assert(!a.has_box(q2));
        }
        assert(c.box_list().no_duplicates()) by {
            assert forall|x: int, y: int| 0 <= x < y < c.box_list().len() implies c.box_list()[x] != c.box_list()[y] by {
                if x == i {
                    assert(a.box_list()[y] != q2);
                } else if y == i {
                    assert(a.box_list()[x] != q2);
                } else {
                    assert(a.box_list()[x] != a.box_list()[y]);
                }
            }
        }
        assert forall|k: int| 0 <= k < c.box_list().len() implies {
            let b = #[trigger] c.box_list()[k];
            &&& b.0 < c.spec_width()
            &&& b.1 < c.spec_height()
            &&& c.spec_tile(b) != Tile::Wall
        } by {
            if k != i {
                assert(c.box_list()[k] == a.box_list()[k]);
            }
        }
        assert(c.spec_player() == q);
    }
}

/// Along a play, every square of a box leads back to where the box ends by
/// pulls on the board with the other boxes taken away: one pull for each
/// push still to come.
proof fn lemma_play_pulls_back(g0: Game, pushes: Seq<Push>, gs: Seq<Game>, b: int, j: int)
    requires
        g0.wf(),
        g0.grounded(),
        plays(g0, pushes, gs),
        0 <= b < g0.box_list().len(),
        0 <= j <= pushes.len(),
    ensures
        within_steps(bfs_step(g0, true), gs[pushes.len() as int].box_list()[b], (pushes.len() - j) as nat).contains(
            gs[j].box_list()[b],
        ),
    decreases pushes.len() - j,
{
    let n = pushes.len() as int;
    let st = bfs_step(g0, true);
    let goal = gs[n].box_list()[b];
    g0.lemma_wf_core();
    g0.lemma_wf();
    if j == n {
        assert(within_steps(st, goal, 0) =~= set![goal]);
    } else {
        lemma_play_pulls_back(g0, pushes, gs, b, j + 1);
        lemma_play_on_board(g0, pushes, gs, j);
        lemma_play_on_board(g0, pushes, gs, j + 1);
        let a = gs[j];
        let c = gs[j + 1];
        let p = pushes[j];
        assert(push_step(a, c, p));
        let t = (n - j - 1) as nat;
        assert((n - (j + 1)) as nat == t);
        assert((n - j) as nat == t + 1);
        if p.box_index.0 == b {
            let d = p.direction;
            let q = a.box_list()[b];
            lemma_neighbor_back(a, q, d);
            let q2 = a.neighbor(q, d)->0;
            assert(c.box_list()[b] == q2);
            let sq = choose|sq: Set<Position>| #[trigger] a.walk_region(a.spec_player(), sq) && a.reaches_box(sq, b, d);
            let from = choose|from: Position|
                #![trigger sq.contains(from), a.neighbor(from, d)]
                sq.contains(from) && a.box_touch(sq, from, d) && a.neighbor(from, d)->0 == q;
            lemma_walk_squares(a, a.spec_player(), sq);
            assert(from.0 < a.spec_width() && from.1 < a.spec_height() && a.spec_tile(from) != Tile::Wall);
            lemma_neighbor_back(a, from, d);
            assert(a.neighbor(q, opposite(d)) == Some(from));
            lemma_dir_num(d);
            assert(g0.neighbor(q2, opposite(d)) == Some(q));
            assert(g0.neighbor(q, opposite(d)) == Some(from));
            assert(g0.spec_tile(q) != Tile::Wall);
            assert(g0.spec_tile(from) != Tile::Wall);
            assert(st(q2, dir_num(d)) == Some(q));
            lemma_within_step(st, goal, t, q2, dir_num(d));
        } else {
            assert(c.box_list()[b] == a.box_list()[b]);
            lemma_within_mono(st, goal, t, t + 1);
        }
    }
}

proof fn lemma_nearest_dst_le(ds: Seq<u16>, p: Position, n: int, k: int)
    requires
        0 <= k < n,
    ensures
        nearest_dst(ds, p, n) <= dist(ds, k, p),
    decreases n,
{
    if k < n - 1 {
        lemma_nearest_dst_le(ds, p, n - 1, k);
    }
}

proof fn lemma_nearest_box_le(ds: Seq<u16>, boxes: Seq<Position>, k: int, m: int, b: int)
    requires
        0 <= b < m,
    ensures
        nearest_box(ds, boxes, k, m) <= dist(ds, k, boxes[b]),
    decreases m,
{
    if b < m - 1 {
        lemma_nearest_box_le(ds, boxes, k, m - 1, b);
    }
}

/// No sequence of pushes solves a game where a box reaches no goal, or a
/// goal is reached by no box, even with the other boxes taken off the board:
/// the cases in which the distance heuristics answer that the game is
/// unsolvable. The table is the push distances of the game's board, and every
/// goal square is one of the game's goals.
pub proof fn lemma_unreachable_unsolvable(g0: Game, ds: Seq<u16>, pushes: Seq<Push>)
    requires
        g0.wf(),
        g0.grounded(),
        forall|p: Position| on_grid(p) && #[trigger] g0.spec_tile(p) == Tile::Goal ==> g0.goal_list().contains(p),
        g0.box_list().len() == g0.goal_list().len(),
        distance_table(g0, true, ds),
        (exists|b: int|
            0 <= b < g0.box_list().len() && #[trigger] nearest_dst(ds, g0.box_list()[b], g0.goal_list().len() as int)
                == u16::MAX) || (exists|k: int|
            0 <= k < g0.goal_list().len() && #[trigger] nearest_box(ds, g0.box_list(), k, g0.box_list().len() as int)
                == u16::MAX),
    ensures
        !solves(g0, pushes),
{
    g0.lemma_wf_core();
    g0.lemma_wf();
    let n = g0.box_list().len() as int;
    let st = bfs_step(g0, true);
    if solves(g0, pushes) {
        let gs = choose|gs: Seq<Game>| #[trigger] plays(g0, pushes, gs);
        let last = pushes.len() as int;
        let fin = gs[last];
        lemma_play_on_board(g0, pushes, gs, last);
        lemma_play_on_board(g0, pushes, gs, 0);
        assert(gs[0].box_list() == g0.box_list());
        // Each box ends on a goal of the game, and leads back to its start.
        assert forall|b: int| 0 <= b < n implies exists|k: int|
            0 <= k < n && #[trigger] g0.goal_list()[k] == #[trigger] fin.box_list()[b] && dist(ds, k, g0.box_list()[b])
                != u16::MAX by {
            let y = fin.box_list()[b];
            assert(fin.spec_tile(y) == Tile::Goal);
            assert(on_grid(y));
            assert(g0.spec_tile(y) == Tile::Goal);
            assert(g0.goal_list().contains(y));
            let k = choose|k: int| 0 <= k < n && g0.goal_list()[k] == y;
            lemma_play_pulls_back(g0, pushes, gs, b, 0);
            assert(within_steps(st, y, last as nat).contains(g0.box_list()[b]));
            assert(on_grid(g0.box_list()[b]));
            assert(distance_ok(st, g0.goal_list()[k], g0.box_list()[b], dist(ds, k, g0.box_list()[b])));
        }
        if exists|b: int| 0 <= b < n && #[trigger] nearest_dst(ds, g0.box_list()[b], n) == u16::MAX {
            let b = choose|b: int| 0 <= b < n && #[trigger] nearest_dst(ds, g0.box_list()[b], n) == u16::MAX;
            let k = choose|k: int|
                0 <= k < n && #[trigger] g0.goal_list()[k] == fin.box_list()[b] && dist(ds, k, g0.box_list()[b])
                    != u16::MAX;
            lemma_nearest_dst_le(ds, g0.box_list()[b], n, k);
        } else {
            let k = choose|k: int| 0 <= k < n && #[trigger] nearest_box(ds, g0.box_list(), k, n) == u16::MAX;
            // The boxes end on distinct goals, as many as there are goals,
            // so one of them ends on goal `k`.
            let sb = fin.box_list().to_set();
            let sg = g0.goal_list().to_set();
            fin.box_list().unique_seq_to_set();
            g0.goal_list().unique_seq_to_set();
            assert(sb.subset_of(sg)) by {
                assert forall|y: Position| sb.contains(y) implies sg.contains(y) by {
                    let b = choose|b: int| 0 <= b < fin.box_list().len() && fin.box_list()[b] == y;
                    assert(fin.spec_tile(y) == Tile::Goal);
                    assert(g0.spec_tile(y) == Tile::Goal);
                }
            }
            vstd::set_lib::lemma_subset_equality(sb, sg);
            assert(sg.contains(g0.goal_list()[k]));
            let b = choose|b: int| 0 <= b < fin.box_list().len() && fin.box_list()[b] == g0.goal_list()[k];
            let k2 = choose|k2: int|
                0 <= k2 < n && #[trigger] g0.goal_list()[k2] == fin.box_list()[b] && dist(ds, k2, g0.box_list()[b])
                    != u16::MAX;
            assert(k2 == k) by {
                assert(g0.goal_list()[k2] == g0.goal_list()[k]);
            }
            lemma_nearest_box_le(ds, g0.box_list(), k, n, b);
        }
    }
}

} // verus!
