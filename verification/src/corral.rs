use std::collections::HashMap;
use std::rc::Rc;
use vstd::prelude::*;

use arrayvec::ArrayVec;
use crate::bits::{on_grid, Bitvector, BitvectorIter, Index, LazyBitboard, Position};
use crate::plist::{square_stack, sstack_len, sstack_new, sstack_pop, sstack_push};
use crate::game::{is_top_left, select, Game, ReachableSet, Tile};
use crate::moves::{dir_at, dir_num, lemma_dir_num, move_key, opposite, Direction, Move, Moves, Push};
use crate::reach::{
    cell, closed, closure_of, count_missing, is_closure, lemma_cell_grid_pos, lemma_closure_of,
    lemma_closure_unique, lemma_count_missing_bound, lemma_count_missing_insert, within_closure,
};
use crate::zobrist::Zobrist;

verus! {

/// A region of squares the player cannot reach, bounded by walls and by
/// boxes the player can reach, with the pushes that lead into it.
pub struct Corral {
    /// The boxes on the region's squares
    pub boxes: Bitvector,
    /// The region's squares
    pub extent: LazyBitboard,
    /// The pushes of the region's edge boxes into the region
    pub pushes: Moves<Push>,
    /// Every push of an edge box that is not known to be useless leads into the region
    pub i_condition: bool,
    /// The player can reach the square behind each such push
    pub p_condition: bool,
}

/// Box `i` stands on `p`, and the player can reach it.
pub open spec fn edge_box_at(g: &Game, rb: Set<int>, p: Position) -> bool {
    exists|i: int| 0 <= i < g.box_list().len() && #[trigger] g.box_list()[i] == p && rb.contains(i)
}

/// A step of the region's fill: from a square that does not hold a box the
/// player can reach, to a neighbour that is not a wall.
pub open spec fn corral_step(g: &Game, rb: Set<int>) -> spec_fn(Position, int) -> Option<Position> {
    |p: Position, d: int|
        if edge_box_at(g, rb, p) {
            None
        } else {
            match g.neighbor(p, dir_at(d)) {
                Some(q) => if g.spec_tile(q) != Tile::Wall {
                    Some(q)
                } else {
                    None
                },
                None => None,
            }
        }
}

/// A push of box `b` in direction `d` counts for the region: the squares
/// ahead of and behind the box are on the board, the square behind is not in
/// the region and not a wall, and the square ahead is free and not dead.
pub open spec fn push_candidate(g: &Game, extent: Set<Position>, b: int, d: Direction) -> bool {
    let bp = g.box_list()[b];
    &&& g.neighbor(bp, d) is Some
    &&& g.neighbor(bp, opposite(d)) is Some
    &&& !extent.contains(g.neighbor(bp, opposite(d))->0)
    &&& !g.blocked(g.neighbor(bp, d)->0)
    &&& g.spec_tile(g.neighbor(bp, opposite(d))->0) != Tile::Wall
    &&& !g.push_dead().contains(g.neighbor(bp, d)->0)
}

/// Every push of an edge box that counts for the region leads into it.
pub open spec fn i_cond(g: &Game, extent: Set<Position>, edge: Set<int>) -> bool {
    forall|b: int, d: Direction|
        #![trigger edge.contains(b), g.neighbor(g.box_list()[b], d)]
        edge.contains(b) && push_candidate(g, extent, b, d) ==> extent.contains(g.neighbor(g.box_list()[b], d)->0)
}

/// The player reaches the square behind every push of an edge box that
/// counts for the region and leads into it.
pub open spec fn p_cond(g: &Game, extent: Set<Position>, squares: Set<Position>, edge: Set<int>) -> bool {
    forall|b: int, d: Direction|
        #![trigger edge.contains(b), g.neighbor(g.box_list()[b], d)]
        edge.contains(b) && push_candidate(g, extent, b, d) && extent.contains(g.neighbor(g.box_list()[b], d)->0)
            ==> squares.contains(g.neighbor(g.box_list()[b], opposite(d))->0)
}

/// The pushes of the edge boxes into the region that count and start from a
/// square the player reaches.
pub open spec fn region_pushes(g: &Game, extent: Set<Position>, squares: Set<Position>, edge: Set<int>) -> Set<
    (int, int),
> {
    Set::new(
        |m: (int, int)|
            0 <= m.0 < 4 && edge.contains(m.1) && push_candidate(g, extent, m.1, dir_at(m.0)) && extent.contains(
                g.neighbor(g.box_list()[m.1], dir_at(m.0))->0,
            ) && squares.contains(g.neighbor(g.box_list()[m.1], opposite(dir_at(m.0)))->0),
    )
}

/// The corral's facts follow from its region, the reachable squares and the
/// edge boxes.
pub open spec fn corral_facts(
    g: &Game,
    extent: Set<Position>,
    squares: Set<Position>,
    edge: Set<int>,
    pushes: Set<(int, int)>,
    i_condition: bool,
    p_condition: bool,
) -> bool {
    &&& i_condition == i_cond(g, extent, edge)
    &&& p_condition == p_cond(g, extent, squares, edge)
    &&& forall|m: (int, int)| #[trigger]
        pushes.contains(m) <==> (0 <= m.0 < 4 && edge.contains(m.1) && push_candidate(g, extent, m.1, dir_at(m.0))
            && extent.contains(g.neighbor(g.box_list()[m.1], dir_at(m.0))->0) && squares.contains(
            g.neighbor(g.box_list()[m.1], opposite(dir_at(m.0)))->0,
        ))
}

/// The square a push moves its box onto.
pub open spec fn push_target(g: &Game, m: (int, int)) -> Position {
    g.neighbor(g.box_list()[m.1], dir_at(m.0))->0
}

/// A push the player can make that moves its box off the squares the player
/// reaches.
pub open spec fn leaves(g: &Game, reachable: &ReachableSet<Push>, m: (int, int)) -> bool {
    &&& reachable.moves@.contains(m)
    &&& !reachable.squares@.contains(push_target(g, m))
}

/// The region beyond a square, filled from it up to walls and to boxes the
/// player reaches.
pub open spec fn region_at(g: &Game, rb: Set<int>, pos: Position) -> Set<Position> {
    closure_of(corral_step(g, rb), set![pos])
}

/// The boxes the player reaches that stand on a region's squares.
pub open spec fn edge_of(g: &Game, extent: Set<Position>, rb: Set<int>) -> Set<int> {
    Set::new(|i: int| 0 <= i < g.box_list().len() && extent.contains(g.box_list()[i]) && rb.contains(i))
}

/// The region beyond `pos` prunes: something in it needs a push, and its
/// i and p conditions hold.
pub open spec fn pruning_region(g: &Game, reachable: &ReachableSet<Push>, pos: Position) -> bool {
    let e = region_at(g, reachable.boxes@, pos);
    let edge = edge_of(g, e, reachable.boxes@);
    &&& needs_push(g, e)
    &&& i_cond(g, e, edge)
    &&& p_cond(g, e, reachable.squares@, edge)
}

/// Something in the region beyond `pos` needs a push, but the region does
/// not prune.
pub open spec fn idle_region(g: &Game, reachable: &ReachableSet<Push>, pos: Position) -> bool {
    let e = region_at(g, reachable.boxes@, pos);
    let edge = edge_of(g, e, reachable.boxes@);
    &&& needs_push(g, e)
    &&& !(i_cond(g, e, edge) && p_cond(g, e, reachable.squares@, edge))
}

/// What the region search tells, given the node limit of each search of a
/// region: `Prune` gives the pushes into a pruning region that a push leaves
/// into; `Deadlocked` comes from a region that needs a push and whose every
/// counting push leads into it, and never where the limit is zero;
/// `NoCorral` means that no region a push leaves into prunes, unless it lies
/// inside such a region found not to prune.
pub open spec fn corral_outcome(
    g: &Game,
    reachable: &ReachableSet<Push>,
    r: CorralResult<Push>,
    max_nodes: usize,
) -> bool {
    &&& r matches CorralResult::Prune(p) ==> exists|m: (int, int)| #[trigger]
        leaves(g, reachable, m) && pruning_region(g, reachable, push_target(g, m)) && p@ == region_pushes(
            g,
            region_at(g, reachable.boxes@, push_target(g, m)),
            reachable.squares@,
            edge_of(g, region_at(g, reachable.boxes@, push_target(g, m)), reachable.boxes@),
        )
    &&& r is Deadlocked ==> exists|m: (int, int)| #[trigger]
        leaves(g, reachable, m) && needs_push(g, region_at(g, reachable.boxes@, push_target(g, m))) && i_cond(
            g,
            region_at(g, reachable.boxes@, push_target(g, m)),
            edge_of(g, region_at(g, reachable.boxes@, push_target(g, m)), reachable.boxes@),
        )
    &&& r is NoCorral ==> forall|m: (int, int)| #[trigger]
        leaves(g, reachable, m) ==> !pruning_region(g, reachable, push_target(g, m)) || exists|m2: (int, int)|
            #[trigger] leaves(g, reachable, m2) && idle_region(g, reachable, push_target(g, m2)) && region_at(
                g,
                reachable.boxes@,
                push_target(g, m2),
            ).contains(push_target(g, m))
    &&& max_nodes == 0 ==> !(r is Deadlocked)
}

/// A push counts for a region alike in games in the same state.
proof fn lemma_candidate_same(g: &Game, g2: &Game, e: Set<Position>, b: int, d: Direction)
    requires
        g.wf_core(),
        g2.wf_core(),
        g.same_state(g2),
        0 <= b < g.box_list().len(),
        on_grid(g.box_list()[b]),
    ensures
        push_candidate(g, e, b, d) == push_candidate(g2, e, b, d),
{
    crate::game::lemma_same_state(g, g2);
    g.lemma_neighbor_on_grid(g.box_list()[b], d);
    g.lemma_neighbor_on_grid(g.box_list()[b], opposite(d));
}

/// Games in the same state have the same regions, with the same facts.
proof fn lemma_region_same(g: &Game, g2: &Game, rb: Set<int>, pos: Position, squares: Set<Position>)
    requires
        g.wf(),
        g2.wf(),
        g.same_state(g2),
        on_grid(pos),
    ensures
        region_at(g, rb, pos) == region_at(g2, rb, pos),
        needs_push(g, region_at(g, rb, pos)) == needs_push(g2, region_at(g2, rb, pos)),
        edge_of(g, region_at(g, rb, pos), rb) == edge_of(g2, region_at(g2, rb, pos), rb),
        i_cond(g, region_at(g, rb, pos), edge_of(g, region_at(g, rb, pos), rb)) == i_cond(
            g2,
            region_at(g2, rb, pos),
            edge_of(g2, region_at(g2, rb, pos), rb),
        ),
        p_cond(g, region_at(g, rb, pos), squares, edge_of(g, region_at(g, rb, pos), rb)) == p_cond(
            g2,
            region_at(g2, rb, pos),
            squares,
            edge_of(g2, region_at(g2, rb, pos), rb),
        ),
        region_pushes(g, region_at(g, rb, pos), squares, edge_of(g, region_at(g, rb, pos), rb)) == region_pushes(
            g2,
            region_at(g2, rb, pos),
            squares,
            edge_of(g2, region_at(g2, rb, pos), rb),
        ),
{
    g.lemma_wf_core();
    g2.lemma_wf_core();
    g.lemma_wf();
    g2.lemma_wf();
    crate::game::lemma_same_state(g, g2);
    let st = corral_step(g, rb);
    assert forall|p: Position, d: int| #[trigger] st(p, d) == corral_step(g2, rb)(p, d) by {
        g.lemma_neighbor_on_grid(p, dir_at(d));
    }
    assert(st =~= corral_step(g2, rb));
    let e = region_at(g, rb, pos);
    let grid = Set::new(|p: Position| on_grid(p));
    assert forall|p: Position, d: int| #![trigger grid.contains(p), st(p, d)]
        grid.contains(p) && 0 <= d < 4 && st(p, d) is Some implies grid.contains(st(p, d)->0) by {
        g.lemma_neighbor_on_grid(p, dir_at(d));
    }
    assert(closed(st, grid));
    assert(set![pos].subset_of(grid));
    assert forall|p: Position| #[trigger] e.contains(p) implies on_grid(p) by {
        assert(grid.contains(p));
    }
    if needs_push(g, e) {
        let p = choose|p: Position| #[trigger] e.contains(p) && g.has_box(p) != (g.spec_tile(p) == Tile::Goal);
        assert(g2.has_box(p) != (g2.spec_tile(p) == Tile::Goal));
    }
    if needs_push(g2, e) {
        let p = choose|p: Position| #[trigger] e.contains(p) && g2.has_box(p) != (g2.spec_tile(p) == Tile::Goal);
        assert(g.has_box(p) != (g.spec_tile(p) == Tile::Goal));
    }
    let edge = edge_of(g, e, rb);
    assert(edge =~= edge_of(g2, e, rb));
    assert forall|b: int, d: Direction| edge.contains(b) implies #[trigger] push_candidate(g, e, b, d) == push_candidate(
        g2,
        e,
        b,
        d,
    ) by {
        lemma_candidate_same(g, g2, e, b, d);
    }
    assert forall|b: int, d: Direction| #![trigger edge.contains(b), g.neighbor(g.box_list()[b], d)]
        edge.contains(b) implies push_candidate(g, e, b, d) == push_candidate(g2, e, b, d) by {
        lemma_candidate_same(g, g2, e, b, d);
    }
    assert(i_cond(g, e, edge) == i_cond(g2, e, edge)) by {
        if i_cond(g, e, edge) {
            assert forall|b: int, d: Direction| #![trigger edge.contains(b), g2.neighbor(g2.box_list()[b], d)]
                edge.contains(b) && push_candidate(g2, e, b, d) implies e.contains(g2.neighbor(g2.box_list()[b], d)->0) by {
                lemma_candidate_same(g, g2, e, b, d);
                assert(g.neighbor(g.box_list()[b], d) == g2.neighbor(g2.box_list()[b], d));
            }
        }
        if i_cond(g2, e, edge) {
            assert forall|b: int, d: Direction| #![trigger edge.contains(b), g.neighbor(g.box_list()[b], d)]
                edge.contains(b) && push_candidate(g, e, b, d) implies e.contains(g.neighbor(g.box_list()[b], d)->0) by {
                lemma_candidate_same(g, g2, e, b, d);
                assert(g.neighbor(g.box_list()[b], d) == g2.neighbor(g2.box_list()[b], d));
            }
        }
    }
    assert(p_cond(g, e, squares, edge) == p_cond(g2, e, squares, edge)) by {
        if p_cond(g, e, squares, edge) {
            assert forall|b: int, d: Direction| #![trigger edge.contains(b), g2.neighbor(g2.box_list()[b], d)]
                edge.contains(b) && push_candidate(g2, e, b, d) && e.contains(g2.neighbor(g2.box_list()[b], d)->0)
                    implies squares.contains(g2.neighbor(g2.box_list()[b], opposite(d))->0) by {
                lemma_candidate_same(g, g2, e, b, d);
                assert(g.neighbor(g.box_list()[b], d) == g2.neighbor(g2.box_list()[b], d));
                assert(g.neighbor(g.box_list()[b], opposite(d)) == g2.neighbor(g2.box_list()[b], opposite(d)));
            }
        }
        if p_cond(g2, e, squares, edge) {
            assert forall|b: int, d: Direction| #![trigger edge.contains(b), g.neighbor(g.box_list()[b], d)]
                edge.contains(b) && push_candidate(g, e, b, d) && e.contains(g.neighbor(g.box_list()[b], d)->0)
                    implies squares.contains(g.neighbor(g.box_list()[b], opposite(d))->0) by {
                lemma_candidate_same(g, g2, e, b, d);
                assert(g.neighbor(g.box_list()[b], d) == g2.neighbor(g2.box_list()[b], d));
                assert(g.neighbor(g.box_list()[b], opposite(d)) == g2.neighbor(g2.box_list()[b], opposite(d)));
            }
        }
    }
    assert(region_pushes(g, e, squares, edge) =~= region_pushes(g2, e, squares, edge)) by {
        assert forall|m: (int, int)| #[trigger] region_pushes(g, e, squares, edge).contains(m) == region_pushes(g2, e, squares, edge).contains(m) by {
            if 0 <= m.0 < 4 && edge.contains(m.1) {
                lemma_candidate_same(g, g2, e, m.1, dir_at(m.0));
            }
        }
    }
}

/// Whether a region holds a square where a box is off its goal, or a goal
/// without a box: then something in it has to be pushed.
pub open spec fn needs_push(g: &Game, extent: Set<Position>) -> bool {
    exists|p: Position| #[trigger] extent.contains(p) && g.has_box(p) != (g.spec_tile(p) == Tile::Goal)
}

/// Computes the region around `pos`, a square the player cannot reach, and
/// the pushes into it; `None` when nothing in the region needs a push.
pub fn compute_corral(game: &Game, pos: Position, reachable: &ReachableSet<Push>) -> (r: Option<Corral>)
    requires
        game.wf(),
        on_grid(pos),
        game.spec_tile(pos) != Tile::Wall,
        !reachable.squares@.contains(pos),
        forall|i: int| #[trigger] reachable.boxes@.contains(i) ==> 0 <= i < game.box_list().len(),
    ensures
        ({
            let extent = closure_of(corral_step(game, reachable.boxes@), set![pos]);
            match r {
                None => !needs_push(game, extent),
                Some(c) => {
                    &&& needs_push(game, extent)
                    &&& c.extent@ == extent
                    &&& forall|i: int| #[trigger]
                        c.boxes@.contains(i) <==> 0 <= i < game.box_list().len() && extent.contains(
                            game.box_list()[i],
                        )
                    &&& corral_facts(
                        game,
                        extent,
                        reachable.squares@,
                        Set::new(|i: int| c.boxes@.contains(i) && reachable.boxes@.contains(i)),
                        c.pushes@,
                        c.i_condition,
                        c.p_condition,
                    )
                },
            }
        }),
{
    proof {
        game.lemma_wf_core();
        game.lemma_wf();
    }
    let ghost rb = reachable.boxes@;
    let ghost st = corral_step(game, rb);
    let ghost base = set![pos];
    let ghost region = closure_of(st, base);
    proof {
        lemma_closure_of(st, base);
        lemma_cell_grid_pos(pos);
    }
    let mut stack: ArrayVec<Position, 4096> = sstack_new();
    let mut extent = LazyBitboard::new();
    let mut boxes = Bitvector::new();
    let mut boxes_on_edge = Bitvector::new();
    let mut requires_push = false;
    let ghost mut popped: Set<Position> = Set::empty();
    sstack_push(&mut stack, pos);
    proof {
        extent.lemma_on_grid();
    }
    extent.set(pos);
    proof {
        assert(extent@ =~= base);
        assert(square_stack(stack)[0] == pos);
        lemma_count_missing_insert(Set::empty(), pos, 4096);
        lemma_count_missing_bound(extent@, 4096, cell(pos));
        assert forall|s: Set<Position>| #[trigger] closed(st, s) && base.subset_of(s) implies extent@.subset_of(s) by {
        }
    }
    while sstack_len(&stack) > 0
        invariant
            game.wf(),
            game.wf_core(),
            forall|j: int| 0 <= j < game.box_list().len() ==> on_grid(#[trigger] game.box_list()[j]),
            game.box_list().len() <= 64,
            game.box_list().no_duplicates(),
            rb == reachable.boxes@,
            forall|i: int| #[trigger] rb.contains(i) ==> 0 <= i < game.box_list().len(),
            st == corral_step(game, rb),
            base == set![pos],
            region == closure_of(st, base),
            is_closure(st, base, region),
            base.subset_of(extent@),
            forall|p: Position| #[trigger] extent@.contains(p) ==> on_grid(p),
            forall|i: int| 0 <= i < square_stack(stack).len() ==> extent@.contains(#[trigger] square_stack(stack)[i]),
            forall|p: Position| #[trigger] extent@.contains(p) ==> square_stack(stack).contains(p) || popped.contains(p),
            forall|p: Position| #[trigger] popped.contains(p) ==> extent@.contains(p) && (
                forall|d: int| #![trigger st(p, d)] 0 <= d < 4 && st(p, d) is Some ==> extent@.contains(st(p, d)->0)),
            within_closure(st, base, extent@),
            forall|i: int| #[trigger] boxes@.contains(i) <==> 0 <= i < game.box_list().len() && popped.contains(
                game.box_list()[i],
            ),
            forall|i: int| #[trigger] boxes_on_edge@.contains(i) <==> boxes@.contains(i) && rb.contains(i),
            requires_push == needs_push(game, popped),
            square_stack(stack).len() + count_missing(extent@, 4096) <= 4096,
        decreases 2 * count_missing(extent@, 4096) + square_stack(stack).len(),
    {
        let ghost m0 = 2 * count_missing(extent@, 4096) + square_stack(stack).len();
        let ghost s0 = square_stack(stack);
        let curr_pos = sstack_pop(&mut stack).unwrap();
        proof {
            assert(square_stack(stack) == s0.drop_last());
            assert(curr_pos == s0.last());
            assert(extent@.contains(s0[s0.len() - 1]));
            lemma_cell_grid_pos(curr_pos);
        }
        let is_goal = game.get_tile(curr_pos) == Tile::Goal;
        let ghost pp0 = popped;
        let ghost bx0 = boxes@;
        let ghost be0 = boxes_on_edge@;
        let mut edge = false;
        let idx = game.box_index(curr_pos);
        match idx {
            Some(box_idx) => {
                boxes.add(box_idx);
                if !is_goal {
                    requires_push = true;
                }
                if reachable.boxes.contains(box_idx) {
                    boxes_on_edge.add(box_idx);
                    edge = true;
                }
            },
            None => {
                if is_goal {
                    requires_push = true;
                }
            },
        }
        proof {
            popped = popped.insert(curr_pos);
            assert(edge == edge_box_at(game, rb, curr_pos)) by {
                if edge_box_at(game, rb, curr_pos) {
                    let i = choose|i: int| 0 <= i < game.box_list().len() && #[trigger] game.box_list()[i] == curr_pos && rb.contains(i);
                    assert(game.has_box(curr_pos));
                    assert(game.box_list().no_duplicates());
                }
            }
            assert(game.has_box(curr_pos) == idx is Some);
            assert forall|i: int| #[trigger] boxes@.contains(i) <==> 0 <= i < game.box_list().len() && popped.contains(
                game.box_list()[i]) by {
                if idx is Some && 0 <= i < game.box_list().len() && game.box_list()[i] == curr_pos {
                    assert(game.box_list().no_duplicates());
                }
            }
            let cond = game.has_box(curr_pos) != (game.spec_tile(curr_pos) == Tile::Goal);
            assert(requires_push == (needs_push(game, pp0) || cond));
            assert(needs_push(game, popped) == (needs_push(game, pp0) || cond)) by {
                if needs_push(game, popped) {
                    let p = choose|p: Position| #[trigger] popped.contains(p) && game.has_box(p) != (game.spec_tile(p) == Tile::Goal);
                    if p != curr_pos {
                        assert(pp0.contains(p));
                    }
                }
                if needs_push(game, pp0) {
                    let p = choose|p: Position| #[trigger] pp0.contains(p) && game.has_box(p) != (game.spec_tile(p) == Tile::Goal);
                    assert(popped.contains(p));
                }
                if cond {
                    assert(popped.contains(curr_pos));
                }
            }
            assert forall|p: Position| #[trigger] extent@.contains(p) implies square_stack(stack).contains(p) || popped.contains(p) by {
                if s0.contains(p) && p != curr_pos {
                    let i = choose|i: int| 0 <= i < s0.len() && s0[i] == p;
                    assert(square_stack(stack)[i] == p);
                }
            }
        }
        if !edge {
            let mut k: usize = 0;
            while k < 4
                invariant
                    0 <= k <= 4,
                    game.wf_core(),
                    !edge_box_at(game, rb, curr_pos),
                    on_grid(curr_pos),
                    st == corral_step(game, rb),
                    base == set![pos],
                    base.subset_of(extent@),
                    extent@.contains(curr_pos),
                    popped.contains(curr_pos),
                    forall|p: Position| #[trigger] extent@.contains(p) ==> on_grid(p),
                    forall|i: int| 0 <= i < square_stack(stack).len() ==> extent@.contains(#[trigger] square_stack(stack)[i]),
                    forall|p: Position| #[trigger] extent@.contains(p) ==> square_stack(stack).contains(p) || popped.contains(p),
                    forall|p: Position| #[trigger] popped.contains(p) && p != curr_pos ==> extent@.contains(p) && (
                        forall|d: int| #![trigger st(p, d)] 0 <= d < 4 && st(p, d) is Some ==> extent@.contains(st(p, d)->0)),
                    forall|kk: int| 0 <= kk < k && #[trigger] st(curr_pos, kk) is Some ==> extent@.contains(st(curr_pos, kk)->0),
                    within_closure(st, base, extent@),
                    2 * count_missing(extent@, 4096) + square_stack(stack).len() < m0,
                    square_stack(stack).len() + count_missing(extent@, 4096) <= 4096,
                decreases 4 - k,
            {
                let dir = Direction::from_index(k);
                if let Some(next_pos) = game.move_position(curr_pos, dir) {
                    proof {
                        game.lemma_neighbor_on_grid(curr_pos, dir);
                    }
                    if game.get_tile(next_pos) != Tile::Wall && !extent.get(next_pos) {
                        let ghost v0 = extent@;
                        let ghost st0 = square_stack(stack);
                        proof {
                            extent.lemma_on_grid();
                            lemma_count_missing_insert(extent@, next_pos, 4096);
                            lemma_cell_grid_pos(next_pos);
                        }
                        sstack_push(&mut stack, next_pos);
                        proof {
                            extent.lemma_on_grid();
                        }
                        extent.set(next_pos);
                        proof {
                            assert(st(curr_pos, k as int) == Some(next_pos));
                            assert(square_stack(stack).last() == next_pos);
                            assert forall|i: int| 0 <= i < square_stack(stack).len() implies extent@.contains(#[trigger] square_stack(stack)[i]) by {
                                if i < st0.len() {
                                    assert(square_stack(stack)[i] == st0[i]);
                                }
                            }
                            assert forall|p: Position| #[trigger] extent@.contains(p) implies square_stack(stack).contains(p) || popped.contains(p) by {
                                if p == next_pos {
                                    assert(square_stack(stack)[square_stack(stack).len() - 1] == p);
                                } else if st0.contains(p) {
                                    let i = choose|i: int| 0 <= i < st0.len() && st0[i] == p;
                                    assert(square_stack(stack)[i] == p);
                                }
                            }
                            lemma_count_missing_insert(v0, next_pos, 4096);
                            assert forall|s: Set<Position>| #[trigger] closed(st, s) && base.subset_of(s) implies extent@.subset_of(s) by {
                                assert(v0.subset_of(s));
                                assert(s.contains(curr_pos));
                                assert(s.contains(st(curr_pos, k as int)->0));
                            }
                        }
                    }
                }
                proof {
                    lemma_dir_num(dir);
                }
                k = k + 1;
            }
        }
        proof {
            assert forall|p: Position| #[trigger] popped.contains(p) implies extent@.contains(p) && (
                forall|d: int| #![trigger st(p, d)] 0 <= d < 4 && st(p, d) is Some ==> extent@.contains(st(p, d)->0)) by {
            }
        }
    }
    proof {
        assert(popped =~= extent@);
        assert(closed(st, extent@));
        lemma_closure_unique(st, base, extent@, region);
    }
    if !requires_push {
        return None;
    }
    let mut i_condition = true;
    let mut p_condition = true;
    let mut pushes: Moves<Push> = Moves::new();
    let ghost ext = extent@;
    let ghost sq = reachable.squares@;
    let ghost edge_set = boxes_on_edge@;
    let mut it = boxes_on_edge.iter();
    let ghost mut done: Set<int> = Set::empty();
    loop
        invariant
            game.wf(),
            game.wf_core(),
            forall|j: int| 0 <= j < game.box_list().len() ==> on_grid(#[trigger] game.box_list()[j]),
            game.box_list().len() <= 64,
            ext == extent@,
            sq == reachable.squares@,
            edge_set == boxes_on_edge@,
            forall|i: int| #[trigger] edge_set.contains(i) ==> 0 <= i < game.box_list().len(),
            edge_set == done.union(it@),
            done.disjoint(it@),
            corral_facts(game, ext, sq, done, pushes@, i_condition, p_condition),
        ensures
            corral_facts(game, ext, sq, edge_set, pushes@, i_condition, p_condition),
        decreases it@.len(),
    {
        proof {
            it.lemma_bounded();
        }
        let ghost it0 = it@;
        let next = it.next();
        let box_idx = match next {
            Some(b) => b,
            None => {
                proof {
                    assert(edge_set =~= done);
                }
                break;
            },
        };
        proof {
            assert(it0.contains(box_idx.0 as int));
            assert(edge_set.contains(box_idx.0 as int));
            assert(!done.contains(box_idx.0 as int));
        }
        let box_pos = game.box_position(box_idx);
        let ghost b = box_idx.0 as int;
        let ghost ic0 = i_condition;
        let ghost pc0 = p_condition;
        let ghost pu0 = pushes@;
        let mut k: usize = 0;
        while k < 4
            invariant
                game.wf(),
                game.wf_core(),
                k <= 4,
                b == box_idx.0,
                0 <= b < game.box_list().len(),
                game.box_list().len() <= 64,
                box_pos == game.box_list()[b],
                on_grid(box_pos),
                ext == extent@,
                sq == reachable.squares@,
                !done.contains(b),
                i_condition == (ic0 && forall|kk: int| 0 <= kk < k && #[trigger] push_candidate(game, ext, b, dir_at(kk))
                    ==> ext.contains(game.neighbor(box_pos, dir_at(kk))->0)),
                p_condition == (pc0 && forall|kk: int| 0 <= kk < k && #[trigger] push_candidate(game, ext, b, dir_at(kk))
                    && ext.contains(game.neighbor(box_pos, dir_at(kk))->0) ==> sq.contains(
                    game.neighbor(box_pos, opposite(dir_at(kk)))->0,
                )),
                forall|m: (int, int)| #[trigger]
                    pushes@.contains(m) <==> (pu0.contains(m) || (m.1 == b && 0 <= m.0 < k && push_candidate(
                        game,
                        ext,
                        b,
                        dir_at(m.0),
                    ) && ext.contains(game.neighbor(box_pos, dir_at(m.0))->0) && sq.contains(
                        game.neighbor(box_pos, opposite(dir_at(m.0)))->0,
                    ))),
            decreases 4 - k,
        {
            let dir = Direction::from_index(k);
            let next_pos = game.move_position(box_pos, dir);
            let player_pos = game.move_position(box_pos, dir.reverse());
            let ghost cand = push_candidate(game, ext, b, dir);
            if let (Some(next_pos), Some(player_pos)) = (next_pos, player_pos) {
                proof {
                    game.lemma_neighbor_on_grid(box_pos, dir);
                    game.lemma_neighbor_on_grid(box_pos, opposite(dir));
                }
                if extent.get(player_pos) {
                } else if game.get_tile(next_pos) == Tile::Wall || game.box_index(next_pos).is_some() {
                } else if game.get_tile(player_pos) == Tile::Wall {
                } else if game.is_push_dead_square(next_pos) {
                } else if !extent.get(next_pos) {
                    i_condition = false;
                } else if !reachable.squares.get(player_pos) {
                    p_condition = false;
                } else {
                    pushes.add(box_idx, dir);
                }
            }
            proof {
                lemma_dir_num(dir);
                assert(dir_at(k as int) == dir);
                assert forall|m: (int, int)| #[trigger]
                    pushes@.contains(m) <==> (pu0.contains(m) || (m.1 == b && 0 <= m.0 < k + 1 && push_candidate(
                        game,
                        ext,
                        b,
                        dir_at(m.0),
                    ) && ext.contains(game.neighbor(box_pos, dir_at(m.0))->0) && sq.contains(
                        game.neighbor(box_pos, opposite(dir_at(m.0)))->0,
                    ))) by {
                }
            }
            k = k + 1;
        }
        proof {
            let nd = done.insert(b);
            let fi = forall|bb: int, d: Direction|
                #![trigger nd.contains(bb), game.neighbor(game.box_list()[bb], d)]
                nd.contains(bb) && push_candidate(game, ext, bb, d) ==> ext.contains(
                    game.neighbor(game.box_list()[bb], d)->0,
                );
            let fi0 = forall|bb: int, d: Direction|
                #![trigger done.contains(bb), game.neighbor(game.box_list()[bb], d)]
                done.contains(bb) && push_candidate(game, ext, bb, d) ==> ext.contains(
                    game.neighbor(game.box_list()[bb], d)->0,
                );
            let fb = forall|kk: int| 0 <= kk < 4 && #[trigger] push_candidate(game, ext, b, dir_at(kk))
                ==> ext.contains(game.neighbor(box_pos, dir_at(kk))->0);
            assert(ic0 == fi0);
            assert(i_condition == (ic0 && fb));
            assert(fi == (fi0 && fb)) by {
                if fi {
                    assert forall|kk: int| 0 <= kk < 4 && #[trigger] push_candidate(game, ext, b, dir_at(kk))
                        implies ext.contains(game.neighbor(box_pos, dir_at(kk))->0) by {
                        assert(nd.contains(b));
                        assert(game.neighbor(game.box_list()[b], dir_at(kk)) == game.neighbor(box_pos, dir_at(kk)));
                    }
                    assert forall|bb: int, d: Direction|
                        #![trigger done.contains(bb), game.neighbor(game.box_list()[bb], d)]
                        done.contains(bb) && push_candidate(game, ext, bb, d) implies ext.contains(
                            game.neighbor(game.box_list()[bb], d)->0) by {
                        assert(nd.contains(bb));
                    }
                }
                if fi0 && fb {
                    assert forall|bb: int, d: Direction|
                        #![trigger nd.contains(bb), game.neighbor(game.box_list()[bb], d)]
                        nd.contains(bb) && push_candidate(game, ext, bb, d) implies ext.contains(
                            game.neighbor(game.box_list()[bb], d)->0) by {
                        if bb == b {
                            lemma_dir_num(d);
                            assert(dir_at(dir_num(d)) == d);
                            assert(push_candidate(game, ext, b, dir_at(dir_num(d))));
                        } else {
                            assert(done.contains(bb));
                        }
                    }
                }
            }
            let gi = forall|bb: int, d: Direction|
                #![trigger nd.contains(bb), game.neighbor(game.box_list()[bb], d)]
                nd.contains(bb) && push_candidate(game, ext, bb, d) && ext.contains(
                    game.neighbor(game.box_list()[bb], d)->0,
                ) ==> sq.contains(game.neighbor(game.box_list()[bb], opposite(d))->0);
            let gi0 = forall|bb: int, d: Direction|
                #![trigger done.contains(bb), game.neighbor(game.box_list()[bb], d)]
                done.contains(bb) && push_candidate(game, ext, bb, d) && ext.contains(
                    game.neighbor(game.box_list()[bb], d)->0,
                ) ==> sq.contains(game.neighbor(game.box_list()[bb], opposite(d))->0);
            let gb = forall|kk: int| 0 <= kk < 4 && #[trigger] push_candidate(game, ext, b, dir_at(kk))
                && ext.contains(game.neighbor(box_pos, dir_at(kk))->0) ==> sq.contains(
                game.neighbor(box_pos, opposite(dir_at(kk)))->0);
            assert(pc0 == gi0);
            assert(p_condition == (pc0 && gb));
            assert(gi == (gi0 && gb)) by {
                if gi {
                    assert forall|kk: int| 0 <= kk < 4 && #[trigger] push_candidate(game, ext, b, dir_at(kk))
                        && ext.contains(game.neighbor(box_pos, dir_at(kk))->0) implies sq.contains(
                        game.neighbor(box_pos, opposite(dir_at(kk)))->0) by {
                        assert(nd.contains(b));
                        assert(game.neighbor(game.box_list()[b], dir_at(kk)) == game.neighbor(box_pos, dir_at(kk)));
                    }
                    assert forall|bb: int, d: Direction|
                        #![trigger done.contains(bb), game.neighbor(game.box_list()[bb], d)]
                        done.contains(bb) && push_candidate(game, ext, bb, d) && ext.contains(
                            game.neighbor(game.box_list()[bb], d)->0) implies sq.contains(
                            game.neighbor(game.box_list()[bb], opposite(d))->0) by {
                        assert(nd.contains(bb));
                    }
                }
                if gi0 && gb {
                    assert forall|bb: int, d: Direction|
                        #![trigger nd.contains(bb), game.neighbor(game.box_list()[bb], d)]
                        nd.contains(bb) && push_candidate(game, ext, bb, d) && ext.contains(
                            game.neighbor(game.box_list()[bb], d)->0) implies sq.contains(
                            game.neighbor(game.box_list()[bb], opposite(d))->0) by {
                        if bb == b {
                            lemma_dir_num(d);
                            assert(dir_at(dir_num(d)) == d);
                            assert(push_candidate(game, ext, b, dir_at(dir_num(d))));
                        } else {
                            assert(done.contains(bb));
                        }
                    }
                }
            }
            assert forall|m: (int, int)| #[trigger]
                pushes@.contains(m) <==> (0 <= m.0 < 4 && nd.contains(m.1) && push_candidate(game, ext, m.1, dir_at(m.0))
                    && ext.contains(game.neighbor(game.box_list()[m.1], dir_at(m.0))->0) && sq.contains(
                    game.neighbor(game.box_list()[m.1], opposite(dir_at(m.0)))->0,
                )) by {
            }
            done = nd;
            assert(edge_set =~= done.union(it@));
        }
    }
    proof {
        assert(Set::new(|i: int| boxes@.contains(i) && reachable.boxes@.contains(i)) =~= edge_set);
    }
    Some(Corral { boxes, extent, pushes, i_condition, p_condition })
}

/// What a search of a region's pushes found.
#[derive(Clone, Copy, Debug, PartialEq, Eq, Structural)]
pub enum DeadlockResult {
    /// A box can leave the region, or every box reached its goal
    NoDeadlock,
    /// No sequence of pushes inside the region leads anywhere
    Deadlocked,
    /// The search ran out of nodes
    CutOff,
}

/// Searches the pushes inside a region for a way out, remembering what it
/// found for each position.
pub struct DeadlockSearcher {
    corral_table: HashMap<u64, DeadlockResult>,
    search_table: HashMap<u64, usize>,
    zobrist: Rc<Zobrist>,
    max_nodes_explored: usize,
}

/// The key of a search node: the key of its boxes, `partial`, with the key
/// of the first square, in reading order, of the player's region.
pub open spec fn node_key(z: Zobrist, g: &Game, partial: u64) -> u64 {
    partial ^ z.player_key(choose|c: Position| is_top_left(c, g.region(g.spec_player())))
}

/// Every push that the player can reach and make moves its box onto a dead
/// square or into the region: no push leads out of it.
pub open spec fn no_exit(g: &Game, extent: Set<Position>) -> bool {
    forall|m: (int, int)| #[trigger]
        crate::solver::reachable_push(g, m) ==> g.push_dead().contains(push_target(g, m)) || extent.contains(
            push_target(g, m),
        )
}

/// The node count after one more node, stopping at the largest count.
pub open spec fn count_after(n: usize) -> usize {
    if n < usize::MAX {
        (n + 1) as usize
    } else {
        n
    }
}

/// A region has one first square.
proof fn lemma_top_left_unique(sq: Set<Position>, c: Position)
    requires
        is_top_left(c, sq),
    ensures
        (choose|x: Position| is_top_left(x, sq)) == c,
{
    let c2 = choose|x: Position| is_top_left(x, sq);
    assert(is_top_left(c2, sq));
    assert(crate::bits::reading_le(c, c2));
    assert(crate::bits::reading_le(c2, c));
}

/// The boxes that stand on a region's squares.
pub open spec fn region_boxes(g: &Game, extent: Set<Position>) -> Set<int> {
    Set::new(|i: int| 0 <= i < g.box_list().len() && extent.contains(g.box_list()[i]))
}

/// `g2` is game `g` cut down to the boxes in `keep`, renumbered in index
/// order.
pub open spec fn projected(g: &Game, keep: Set<int>, g2: &Game) -> bool {
    &&& g2.wf()
    &&& g2.same_board(g)
    &&& g2.spec_player() == g.spec_player()
    &&& g2.box_list() == select(g.box_list(), keep, g.box_list().len() as int)
}

/// Games in the same state give a position the same key and the same
/// pushes out of a region.
proof fn lemma_node_same(g: &Game, g2: &Game, partial: u64, z: Zobrist, extent: Set<Position>)
    requires
        g.wf(),
        g2.wf(),
        g.same_state(g2),
    ensures
        node_key(z, g, partial) == node_key(z, g2, partial),
        no_exit(g, extent) == no_exit(g2, extent),
{
    g.lemma_wf_core();
    g2.lemma_wf_core();
    crate::game::lemma_same_state(g, g2);
    assert(g.region(g.spec_player()) =~= g2.region(g2.spec_player()));
    assert forall|m: (int, int)| #[trigger] crate::solver::reachable_push(g, m) == crate::solver::reachable_push(g2, m) by {
        crate::solver::lemma_reachable_push_same(*g, *g2, m);
    }
    assert forall|m: (int, int)| #[trigger] push_target(g, m) == push_target(g2, m) by {
        assert(g.neighbor(g.box_list()[m.1], dir_at(m.0)) == g2.neighbor(g2.box_list()[m.1], dir_at(m.0)));
    }
    if no_exit(g, extent) {
        assert forall|m: (int, int)| #[trigger] crate::solver::reachable_push(g2, m) implies g2.push_dead().contains(
            push_target(g2, m),
        ) || extent.contains(push_target(g2, m)) by {
            assert(crate::solver::reachable_push(g, m));
            assert(push_target(g, m) == push_target(g2, m));
        }
    }
    if no_exit(g2, extent) {
        assert forall|m: (int, int)| #[trigger] crate::solver::reachable_push(g, m) implies g.push_dead().contains(
            push_target(g, m),
        ) || extent.contains(push_target(g, m)) by {
            assert(crate::solver::reachable_push(g2, m));
            assert(push_target(g, m) == push_target(g2, m));
        }
    }
}

/// From the position, some run of at most `fuel` pushes, each onto a square
/// of the region that is not dead, reaches a position whose boxes all stand
/// on goals, or one that `cache` answers with `NoDeadlock`, or a push that is
/// not onto a dead square and moves its box out of the region.
pub open spec fn escapes(
    g: Game,
    extent: Set<Position>,
    z: Zobrist,
    cache: Map<u64, DeadlockResult>,
    fuel: nat,
) -> bool
    decreases fuel,
{
    let h = node_key(z, &g, z.boxes_key(g.box_list()));
    ||| forall|i: int| 0 <= i < g.box_list().len() ==> g.spec_tile(#[trigger] g.box_list()[i]) == Tile::Goal
    ||| cache.contains_key(h) && cache[h] == DeadlockResult::NoDeadlock
    ||| exists|m: (int, int)| #[trigger]
        crate::solver::reachable_push(&g, m) && !g.push_dead().contains(push_target(&g, m)) && (!extent.contains(
            push_target(&g, m),
        ) || (fuel > 0 && exists|b: Game| #[trigger]
            crate::solver::pushed(&g, &b, m.1, dir_at(m.0)) && b.wf() && escapes(
                b,
                extent,
                z,
                cache,
                (fuel - 1) as nat,
            )))
}

/// Games in the same state escape a region alike.
proof fn lemma_escapes_same(
    a: &Game,
    b: &Game,
    extent: Set<Position>,
    z: Zobrist,
    cache: Map<u64, DeadlockResult>,
    fuel: nat,
)
    requires
        a.wf(),
        b.wf(),
        a.same_state(b),
        escapes(*a, extent, z, cache, fuel),
    ensures
        escapes(*b, extent, z, cache, fuel),
{
    a.lemma_wf_core();
    b.lemma_wf_core();
    crate::game::lemma_same_state(a, b);
    lemma_node_same(a, b, z.boxes_key(a.box_list()), z, extent);
    if forall|i: int| 0 <= i < a.box_list().len() ==> a.spec_tile(#[trigger] a.box_list()[i]) == Tile::Goal {
        assert forall|i: int| 0 <= i < b.box_list().len() implies b.spec_tile(#[trigger] b.box_list()[i]) == Tile::Goal by {
            a.lemma_wf();
            assert(on_grid(a.box_list()[i]));
            assert(a.spec_tile(a.box_list()[i]) == Tile::Goal);
        }
    } else {
        let ha = node_key(z, a, z.boxes_key(a.box_list()));
        if !(cache.contains_key(ha) && cache[ha] == DeadlockResult::NoDeadlock) {
            let m = choose|m: (int, int)| #[trigger]
                crate::solver::reachable_push(a, m) && !a.push_dead().contains(push_target(a, m)) && (!extent.contains(
                    push_target(a, m),
                ) || (fuel > 0 && exists|c: Game| #[trigger]
                    crate::solver::pushed(a, &c, m.1, dir_at(m.0)) && c.wf() && escapes(
                        c,
                        extent,
                        z,
                        cache,
                        (fuel - 1) as nat,
                    )));
            crate::solver::lemma_reachable_push_same(*a, *b, m);
            assert(push_target(a, m) == push_target(b, m)) by {
                assert(a.neighbor(a.box_list()[m.1], dir_at(m.0)) == b.neighbor(b.box_list()[m.1], dir_at(m.0)));
            }
            if extent.contains(push_target(a, m)) {
                let c = choose|c: Game| #[trigger]
                    crate::solver::pushed(a, &c, m.1, dir_at(m.0)) && c.wf() && escapes(
                        c,
                        extent,
                        z,
                        cache,
                        (fuel - 1) as nat,
                    );
                assert(a.neighbor(a.box_list()[m.1], dir_at(m.0)) == b.neighbor(b.box_list()[m.1], dir_at(m.0)));
                assert(crate::solver::pushed(b, &c, m.1, dir_at(m.0)));
            }
            assert(crate::solver::reachable_push(b, m));
        }
    }
}

/// The measure of a search: the nodes left before the cut-off.
pub open spec fn nodes_left(max: usize, n: usize) -> int {
    if n < max {
        max - n
    } else {
        0
    }
}

impl DeadlockSearcher {
    pub closed spec fn max_nodes(&self) -> usize {
        self.max_nodes_explored
    }

    /// The keys the searcher hashes positions with.
    pub closed spec fn keys(&self) -> Zobrist {
        *self.zobrist
    }

    /// What an earlier search from the position with key `h` found, if one
    /// was kept.
    pub closed spec fn corral_entry(&self, h: u64) -> Option<DeadlockResult> {
        if self.corral_table@.contains_key(h) {
            Some(self.corral_table@[h])
        } else {
            None
        }
    }

    /// The least depth at which the current search met the position with
    /// key `h`, if it did.
    pub closed spec fn search_entry(&self, h: u64) -> Option<usize> {
        if self.search_table@.contains_key(h) {
            Some(self.search_table@[h])
        } else {
            None
        }
    }

    /// Some kept result of an earlier search is a cut-off.
    pub closed spec fn has_cutoff_entry(&self) -> bool {
        exists|h: u64| #[trigger] self.corral_entry(h) == Some(DeadlockResult::CutOff)
    }

    /// The kept results of earlier searches.
    pub closed spec fn corral_entries(&self) -> Map<u64, DeadlockResult> {
        self.corral_table@
    }

    pub fn new(zobrist: Rc<Zobrist>, max_nodes_explored: usize) -> (r: Self)
        ensures
            r.max_nodes() == max_nodes_explored,
    {
        Self { corral_table: HashMap::new(), search_table: HashMap::new(), zobrist, max_nodes_explored }
    }

    /// Searches the region's pushes on the game cut down to the region's
    /// boxes, and puts the game back as it was.
    pub fn search(&mut self, game: &mut Game, corral: &Corral) -> (r: DeadlockResult)
        requires
            old(game).wf(),
            old(game).grounded(),
            forall|i: int| #[trigger] corral.boxes@.contains(i) ==> 0 <= i < old(game).box_list().len(),
        ensures
            final(game).wf(),
            final(game).same_board(old(game)),
            final(game).spec_player() == old(game).spec_player(),
            final(game).box_list() == old(game).box_list(),
            final(self).max_nodes() == old(self).max_nodes(),
            old(self).max_nodes() == 0 ==> r == DeadlockResult::NoDeadlock,
            (forall|i: int| #[trigger] corral.boxes@.contains(i) ==> old(game).spec_tile(old(game).box_list()[i]) == Tile::Goal)
                ==> r == DeadlockResult::NoDeadlock,
            final(self).keys() == old(self).keys(),
            forall|h: u64| #[trigger] old(self).corral_entry(h) is Some ==> final(self).corral_entry(h) == old(self).corral_entry(h),
            forall|g2: Game| #[trigger]
                projected(old(game), corral.boxes@, &g2) && old(self).max_nodes() > 0 && !(forall|i: int|
                    #[trigger] corral.boxes@.contains(i) ==> old(game).spec_tile(old(game).box_list()[i]) == Tile::Goal)
                    ==> {
                    let h = node_key(old(self).keys(), &g2, old(self).keys().boxes_key(g2.box_list()));
                    &&& old(self).corral_entry(h) is Some ==> Some(r) == old(self).corral_entry(h)
                    &&& old(self).corral_entry(h) is None && old(self).max_nodes() <= 1 ==> r == DeadlockResult::CutOff
                    &&& r == DeadlockResult::Deadlocked ==> old(self).corral_entry(h) == Some(DeadlockResult::Deadlocked)
                        || no_exit(&g2, corral.extent@)
                    &&& r == DeadlockResult::NoDeadlock ==> exists|k: nat|
                        escapes(g2, corral.extent@, old(self).keys(), old(self).corral_entries(), k)
                },
    {
        broadcast use vstd::std_specs::hash::group_hash_axioms;

        if self.max_nodes_explored == 0 {
            return DeadlockResult::NoDeadlock;
        }
        let checkpoint = game.checkpoint();
        let ghost g0 = *game;
        game.project(corral.boxes);
        proof {
            g0.lemma_wf_core();
            g0.lemma_wf();
            let l0 = g0.box_list();
            let sel = select(l0, corral.boxes@, l0.len() as int);
            assert(game.box_list() == sel);
            assert forall|k: int| 0 <= k < sel.len() implies {
                let c = #[trigger] sel[k];
                &&& c.0 < game.spec_width()
                &&& c.1 < game.spec_height()
                &&& game.spec_tile(c) != Tile::Wall
            } by {
                crate::game::lemma_select_from(l0, corral.boxes@, l0.len() as int, k);
                let j = choose|j: int| 0 <= j < l0.len() && l0[j] == #[trigger] select(l0, corral.boxes@, l0.len() as int)[k];
                assert(on_grid(l0[j]));
                assert(g0.spec_tile(l0[j]) != Tile::Wall);
            }
            assert(on_grid(g0.spec_player()));
            assert(!game.has_box(game.spec_player())) by {
                if sel.contains(g0.spec_player()) {
                    let k = choose|k: int| 0 <= k < sel.len() && sel[k] == g0.spec_player();
                    crate::game::lemma_select_from(l0, corral.boxes@, l0.len() as int, k);
                    let j = choose|j: int| 0 <= j < l0.len() && l0[j] == #[trigger] select(l0, corral.boxes@, l0.len() as int)[k];
                    assert(g0.has_box(g0.spec_player()));
                }
            }
            assert forall|k: int| 0 <= k < game.goal_list().len() implies {
                let c = #[trigger] game.goal_list()[k];
                &&& c.0 < game.spec_width()
                &&& c.1 < game.spec_height()
            } by {
                assert(game.goal_list()[k] == g0.goal_list()[k]);
            }
            if forall|i: int| #[trigger] corral.boxes@.contains(i) ==> g0.spec_tile(g0.box_list()[i]) == Tile::Goal {
                assert forall|k: int| 0 <= k < sel.len() implies game.spec_tile(#[trigger] sel[k]) == Tile::Goal by {
                    crate::game::lemma_select_from(l0, corral.boxes@, l0.len() as int, k);
                    let j = choose|j: int|
                        0 <= j < l0.len() && corral.boxes@.contains(j) && l0[j] == #[trigger] select(l0, corral.boxes@, l0.len() as int)[k];
                    assert(on_grid(l0[j]));
                }
            }
        }
        self.search_table.clear();
        let mut nodes_explored: usize = 0;
        let partial_hash = self.zobrist.compute_boxes_hash(game);
        let ghost gp = *game;
        let ghost s1 = *self;
        let result = self.search_helper(game, corral, 0, &mut nodes_explored, partial_hash);
        proof {
            assert forall|h: u64| #[trigger] old(self).corral_entry(h) is Some implies self.corral_entry(h)
                == old(self).corral_entry(h) by {
                assert(s1.corral_entry(h) == old(self).corral_entry(h));
            }
            assert forall|g2: Game| #[trigger]
                projected(&g0, corral.boxes@, &g2) && old(self).max_nodes() > 0 && !(forall|i: int|
                    #[trigger] corral.boxes@.contains(i) ==> g0.spec_tile(g0.box_list()[i]) == Tile::Goal) implies {
                let h = node_key(old(self).keys(), &g2, old(self).keys().boxes_key(g2.box_list()));
                &&& old(self).corral_entry(h) is Some ==> Some(result) == old(self).corral_entry(h)
                &&& old(self).corral_entry(h) is None && old(self).max_nodes() <= 1 ==> result == DeadlockResult::CutOff
                &&& result == DeadlockResult::Deadlocked ==> old(self).corral_entry(h) == Some(DeadlockResult::Deadlocked)
                    || no_exit(&g2, corral.extent@)
                &&& result == DeadlockResult::NoDeadlock ==> exists|k: nat|
                    escapes(g2, corral.extent@, old(self).keys(), old(self).corral_entries(), k)
            } by {
                lemma_node_same(&gp, &g2, partial_hash, s1.keys(), corral.extent@);
                assert(s1.corral_entries() == old(self).corral_entries());
                if result == DeadlockResult::NoDeadlock {
                    let k = choose|k: nat| escapes(gp, corral.extent@, s1.keys(), s1.corral_entries(), k);
                    lemma_escapes_same(&gp, &g2, corral.extent@, s1.keys(), s1.corral_entries(), k);
                }
                assert(gp.same_state(&g2));
                let h = node_key(s1.keys(), &gp, partial_hash);
                assert(s1.corral_entry(h) == old(self).corral_entry(h));
                assert(s1.search_entry(h) is None);
                if !(forall|i: int| 0 <= i < gp.box_list().len() ==> gp.spec_tile(#[trigger] gp.box_list()[i]) == Tile::Goal) {
                } else {
                    assert forall|i: int| #[trigger] corral.boxes@.contains(i) implies g0.spec_tile(g0.box_list()[i]) == Tile::Goal by {
                        crate::game::lemma_select_in(g0.box_list(), corral.boxes@, g0.box_list().len() as int, i);
                        let k = choose|k: int| 0 <= k < gp.box_list().len() && gp.box_list()[k] == g0.box_list()[i];
                        assert(on_grid(g0.box_list()[i]));
                        assert(gp.spec_tile(gp.box_list()[k]) == Tile::Goal);
                    }
                }
            }
        }
        game.restore(&checkpoint);
        result
    }

    /// One node of the search: the pushes from the current position, each
    /// tried and undone in turn.
    fn search_helper(
        &mut self,
        game: &mut Game,
        corral: &Corral,
        depth: usize,
        nodes_explored: &mut usize,
        partial_hash: u64,
    ) -> (r: DeadlockResult)
        requires
            old(game).wf(),
            old(game).grounded(),
            depth <= *old(nodes_explored),
            partial_hash == old(self).keys().boxes_key(old(game).box_list()),
        ensures
            final(game).wf(),
            final(game).same_board(old(game)),
            final(game).spec_player() == old(game).spec_player(),
            final(game).box_list() == old(game).box_list(),
            *final(nodes_explored) >= *old(nodes_explored),
            final(self).max_nodes() == old(self).max_nodes(),
            (forall|i: int| 0 <= i < old(game).box_list().len() ==> old(game).spec_tile(#[trigger] old(game).box_list()[i])
                == Tile::Goal) ==> r == DeadlockResult::NoDeadlock,
            final(self).keys() == old(self).keys(),
            depth > 0 ==> final(self).corral_entries() == old(self).corral_entries(),
            forall|h: u64| #[trigger] old(self).corral_entry(h) is Some ==> final(self).corral_entry(h) == old(self).corral_entry(h),
            ({
                let h = node_key(old(self).keys(), old(game), partial_hash);
                let solved = forall|i: int|
                    0 <= i < old(game).box_list().len() ==> old(game).spec_tile(#[trigger] old(game).box_list()[i])
                        == Tile::Goal;
                let search_hit = old(self).search_entry(h) matches Some(d) && depth >= d;
                &&& !solved && old(self).corral_entry(h) is Some ==> Some(r) == old(self).corral_entry(h)
                &&& !solved && old(self).corral_entry(h) is None && search_hit ==> r == DeadlockResult::Deadlocked
                &&& !solved && old(self).corral_entry(h) is None && !search_hit && count_after(*old(nodes_explored))
                    >= old(self).max_nodes() ==> r == DeadlockResult::CutOff
                &&& r == DeadlockResult::Deadlocked ==> !solved && (old(self).corral_entry(h) == Some(
                    DeadlockResult::Deadlocked,
                ) || search_hit || no_exit(old(game), corral.extent@))
                &&& r == DeadlockResult::CutOff ==> *final(nodes_explored) >= old(self).max_nodes()
                    || old(self).has_cutoff_entry()
            }),
            r == DeadlockResult::NoDeadlock ==> exists|k: nat|
                escapes(*old(game), corral.extent@, old(self).keys(), old(self).corral_entries(), k),
        decreases nodes_left(old(self).max_nodes(), *old(nodes_explored)),
    {
        broadcast use vstd::std_specs::hash::group_hash_axioms;

        let ghost n_entry = *nodes_explored;
        *nodes_explored = (*nodes_explored).saturating_add(1);
        if game.is_solved() {
            proof {
                assert(escapes(*old(game), corral.extent@, old(self).keys(), old(self).corral_entries(), 0));
            }
            return DeadlockResult::NoDeadlock;
        }
        proof {
            game.lemma_wf_core();
            game.lemma_wf();
        }
        let reachable = game.compute_pushes();
        proof {
            assert(reachable.squares@.contains(game.spec_player()));
        }
        let canonical_player_pos = reachable.squares.top_left().unwrap();
        proof {
            reachable.squares.lemma_on_grid();
        }
        let hash = partial_hash ^ self.zobrist.player_hash(canonical_player_pos);
        proof {
            game.lemma_region_is(game.spec_player(), reachable.squares@);
            lemma_top_left_unique(reachable.squares@, canonical_player_pos);
            assert(hash == node_key(self.keys(), &*game, partial_hash));
        }
        let ghost st0 = self.search_table@;
        if let Some(prev_result) = self.corral_table.get(&hash) {
            proof {
                if *prev_result == DeadlockResult::NoDeadlock {
                    assert(escapes(*old(game), corral.extent@, old(self).keys(), old(self).corral_entries(), 0));
                }
            }
            return *prev_result;
        }
        if let Some(prev_result) = self.search_table.get(&hash) {
            if depth >= *prev_result {
                return DeadlockResult::Deadlocked;
            }
        }
        self.search_table.insert(hash, depth);
        if *nodes_explored >= self.max_nodes_explored {
            return DeadlockResult::CutOff;
        }
        let mut result = DeadlockResult::Deadlocked;
        let checkpoint = game.checkpoint();
        let ghost g0 = *game;
        let ghost n0 = *nodes_explored;
        let mut it = reachable.moves.iter();
        loop
            invariant_except_break
                it.inv(),
                forall|m: (int, int)| #[trigger] it@.contains(m) ==> reachable.moves@.contains(m),
            invariant
                game.wf(),
                game.grounded(),
                game.same_board(&g0),
                game.spec_player() == g0.spec_player(),
                game.box_list() == g0.box_list(),
                g0.wf(),
                g0.grounded(),
                g0 == *old(game),
                n_entry == *old(nodes_explored),
                n_entry < n0,
                checkpoint.spec_player() == g0.spec_player(),
                checkpoint.spec_boxes() == g0.box_list(),
                forall|m: (int, int)| #[trigger] reachable.moves@.contains(m) <==> {
                    &&& 0 <= m.0 < 4
                    &&& 0 <= m.1 < g0.box_list().len()
                    &&& g0.reaches_box(reachable.squares@, m.1, dir_at(m.0))
                    &&& g0.push_free(m.1, dir_at(m.0))
                },
                *nodes_explored >= n0,
                n0 < self.max_nodes_explored,
                depth < n0,
                self.max_nodes_explored == old(self).max_nodes(),
                self.keys() == old(self).keys(),
                self.corral_entries() == old(self).corral_entries(),
                forall|m: (int, int)| #[trigger]
                    reachable.moves@.contains(m) && !it@.contains(m) && result == DeadlockResult::Deadlocked
                        ==> g0.push_dead().contains(push_target(&g0, m)) || corral.extent@.contains(push_target(&g0, m)),
                result == DeadlockResult::CutOff ==> *nodes_explored >= self.max_nodes_explored
                    || old(self).has_cutoff_entry(),
                partial_hash == old(self).keys().boxes_key(g0.box_list()),
                g0.walk_region(g0.spec_player(), reachable.squares@),
                result == DeadlockResult::NoDeadlock ==> exists|k: nat|
                    escapes(g0, corral.extent@, old(self).keys(), old(self).corral_entries(), k),
            ensures
                result == DeadlockResult::Deadlocked ==> forall|m: (int, int)| #[trigger]
                    reachable.moves@.contains(m) ==> g0.push_dead().contains(push_target(&g0, m))
                        || corral.extent@.contains(push_target(&g0, m)),
                result == DeadlockResult::CutOff ==> *nodes_explored >= self.max_nodes_explored
                    || old(self).has_cutoff_entry(),
            decreases it@.len(),
        {
            proof {
                reachable.moves.lemma_bounded();
                vstd::set_lib::lemma_len_subset(it@, reachable.moves@);
            }
            let ghost before = it@;
            let next = it.next();
            let push = match next {
                Some(p) => p,
                None => {
                    proof {
                        assert forall|m: (int, int)| #[trigger] reachable.moves@.contains(m) && result
                            == DeadlockResult::Deadlocked implies g0.push_dead().contains(push_target(&g0, m))
                            || corral.extent@.contains(push_target(&g0, m)) by {
                            assert(!before.contains(m));
                        }
                    }
                    break;
                },
            };
            let box_idx = push.box_index();
            let dir = push.direction();
            proof {
                assert(reachable.moves@.contains(move_key(push)));
                lemma_dir_num(dir);
                game.lemma_wf_core();
                game.lemma_wf();
            }
            let old_box_pos = game.box_position(box_idx);
            let new_box_pos = game.move_position(old_box_pos, dir).unwrap();
            proof {
                game.lemma_neighbor_on_grid(old_box_pos, dir);
                assert(on_grid(old_box_pos));
            }
            if game.is_push_dead_square(new_box_pos) {
                continue;
            }
            if !corral.extent.get(new_box_pos) {
                result = DeadlockResult::NoDeadlock;
                proof {
                    let m = move_key(push);
                    assert(g0.walk_region(g0.spec_player(), reachable.squares@));
                    assert(crate::solver::reachable_push(&g0, m));
                    assert(push_target(&g0, m) == new_box_pos);
                    assert(escapes(g0, corral.extent@, old(self).keys(), old(self).corral_entries(), 0));
                }
                break;
            }
            let ghost gb = *game;
            game.push(push);
            proof {
                crate::game::lemma_push_grounded(&gb, &*game, push);
                crate::zobrist::lemma_push_hash(&*self.zobrist, &gb, &*game, push);
            }
            let partial_hash = partial_hash ^ self.zobrist.box_hash(old_box_pos.0, old_box_pos.1)
                ^ self.zobrist.box_hash(new_box_pos.0, new_box_pos.1);
            assert(nodes_left(self.max_nodes(), *nodes_explored) < nodes_left(old(self).max_nodes(), n_entry));
            let ghost sb = *self;
            let ghost gc = *game;
            let child_result = self.search_helper(game, corral, depth + 1, nodes_explored, partial_hash);
            proof {
                if child_result == DeadlockResult::CutOff && *nodes_explored < self.max_nodes_explored {
                    let h = choose|h: u64| #[trigger] sb.corral_entry(h) == Some(DeadlockResult::CutOff);
                    assert(old(self).corral_entry(h) == Some(DeadlockResult::CutOff));
                }
            }
            game.restore(&checkpoint);
            if child_result == DeadlockResult::NoDeadlock || child_result == DeadlockResult::CutOff {
                result = child_result;
                proof {
                    if child_result == DeadlockResult::NoDeadlock {
                        let m = move_key(push);
                        let k = choose|k: nat| escapes(gc, corral.extent@, sb.keys(), sb.corral_entries(), k);
                        assert(g0.walk_region(g0.spec_player(), reachable.squares@));
                        assert(crate::solver::reachable_push(&g0, m));
                        assert(push_target(&g0, m) == new_box_pos);
                        assert(crate::solver::pushed(&g0, &gc, m.1, dir_at(m.0)));
                        assert(escapes(g0, corral.extent@, old(self).keys(), old(self).corral_entries(), k + 1));
                    }
                }
                break;
            }
        }
        proof {
            if result == DeadlockResult::Deadlocked {
                assert forall|m: (int, int)| #[trigger] crate::solver::reachable_push(&g0, m) implies g0.push_dead().contains(
                    push_target(&g0, m),
                ) || corral.extent@.contains(push_target(&g0, m)) by {
                    let sq = choose|sq: Set<Position>| #[trigger]
                        g0.walk_region(g0.spec_player(), sq) && g0.reaches_box(sq, m.1, dir_at(m.0));
                    g0.lemma_region_is(g0.spec_player(), sq);
                    g0.lemma_region_is(g0.spec_player(), reachable.squares@);
                    assert(reachable.moves@.contains(m));
                }
            }
        }
        proof {
            assert(!self.corral_table@.contains_key(hash));
        }
        if depth == 0 {
            self.corral_table.insert(hash, result);
        }
        result
    }
}

/// Finds the regions the player cannot reach that a push leads into, and
/// uses them to cut down the pushes worth trying.
pub struct CorralSearcher {
    deadlocks: DeadlockSearcher,
}

/// What the region search tells the solver.
#[derive(Clone, Copy, Debug, PartialEq, Eq)]
pub enum CorralResult<T> {
    /// Only these moves need to be tried
    Prune(Moves<T>),
    /// The position is a deadlock
    Deadlocked,
    /// No region helps
    NoCorral,
}

impl CorralSearcher {
    /// The node limit of each search of a region.
    pub closed spec fn max_nodes(&self) -> usize {
        self.deadlocks.max_nodes()
    }

    pub fn new(zobrist: Rc<Zobrist>, max_nodes_explored: usize) -> (r: Self)
        ensures
            r.max_nodes() == max_nodes_explored,
    {
        Self { deadlocks: DeadlockSearcher::new(zobrist, max_nodes_explored) }
    }

    /// Looks at the region beyond each push that leaves the reachable
    /// squares. A deadlocked region makes the position a deadlock; otherwise
    /// the cheapest region whose pushes all lead into it and start from
    /// reachable squares gives the pushes to try.
    /// The keys the region searches hash positions with.
    pub closed spec fn keys(&self) -> Zobrist {
        self.deadlocks.keys()
    }

    /// What a search of a region from the position with key `h` found, if it
    /// was kept.
    pub closed spec fn deadlock_entry(&self, h: u64) -> Option<DeadlockResult> {
        self.deadlocks.corral_entry(h)
    }

    pub fn search(&mut self, game: &mut Game, reachable: &ReachableSet<Push>) -> (r: CorralResult<Push>)
        requires
            old(game).wf(),
            old(game).grounded(),
            forall|i: int| #[trigger] reachable.boxes@.contains(i) ==> 0 <= i < old(game).box_list().len(),
            forall|m: (int, int)| #[trigger] reachable.moves@.contains(m) ==> {
                &&& 0 <= m.0 < 4
                &&& 0 <= m.1 < old(game).box_list().len()
                &&& old(game).push_free(m.1, dir_at(m.0))
            },
        ensures
            final(game).wf(),
            final(game).same_board(old(game)),
            final(game).spec_player() == old(game).spec_player(),
            final(game).box_list() == old(game).box_list(),
            r matches CorralResult::Prune(p) ==> forall|m: (int, int)| #[trigger] p@.contains(m) ==> {
                &&& 0 <= m.0 < 4
                &&& 0 <= m.1 < old(game).box_list().len()
                &&& old(game).push_free(m.1, dir_at(m.0))
            },
            corral_outcome(old(game), reachable, r, old(self).max_nodes()),
            final(self).max_nodes() == old(self).max_nodes(),
            r is Deadlocked ==> exists|m: (int, int)| #[trigger]
                leaves(old(game), reachable, m) && {
                    let e = region_at(old(game), reachable.boxes@, push_target(old(game), m));
                    &&& needs_push(old(game), e)
                    &&& i_cond(old(game), e, edge_of(old(game), e, reachable.boxes@))
                    &&& forall|g2: Game| #[trigger]
                        projected(old(game), region_boxes(old(game), e), &g2) ==> no_exit(&g2, e)
                            || final(self).deadlock_entry(
                            node_key(final(self).keys(), &g2, final(self).keys().boxes_key(g2.box_list())),
                        ) == Some(DeadlockResult::Deadlocked)
                },
    {
        let mut result = CorralResult::NoCorral;
        let mut min_cost = usize::MAX;
        let mut visited = LazyBitboard::new();
        let ghost g0 = *game;
        let mut it = reachable.moves.iter();
        loop
            invariant_except_break
                it.inv(),
                forall|m: (int, int)| #[trigger] it@.contains(m) ==> reachable.moves@.contains(m),
            invariant
                game.wf(),
                game.grounded(),
                game.same_board(&g0),
                game.spec_player() == g0.spec_player(),
                game.box_list() == g0.box_list(),
                g0.wf(),
                g0 == *old(game),
                forall|i: int| #[trigger] reachable.boxes@.contains(i) ==> 0 <= i < g0.box_list().len(),
                forall|m: (int, int)| #[trigger] reachable.moves@.contains(m) ==> {
                    &&& 0 <= m.0 < 4
                    &&& 0 <= m.1 < g0.box_list().len()
                    &&& g0.push_free(m.1, dir_at(m.0))
                },
                result matches CorralResult::Prune(p) ==> forall|m: (int, int)| #[trigger] p@.contains(m) ==> {
                    &&& 0 <= m.0 < 4
                    &&& 0 <= m.1 < g0.box_list().len()
                    &&& g0.push_free(m.1, dir_at(m.0))
                },
                !(result is Deadlocked),
                self.max_nodes() == old(self).max_nodes(),
                forall|m: (int, int)| #[trigger]
                    leaves(&g0, reachable, m) && !it@.contains(m) ==> visited@.contains(push_target(&g0, m)) || !needs_push(
                        &g0,
                        region_at(&g0, reachable.boxes@, push_target(&g0, m)),
                    ),
                result is NoCorral ==> min_cost == usize::MAX,
                result is NoCorral ==> forall|p: Position| #[trigger]
                    visited@.contains(p) ==> exists|m2: (int, int)| #[trigger]
                        leaves(&g0, reachable, m2) && idle_region(&g0, reachable, push_target(&g0, m2))
                            && region_at(&g0, reachable.boxes@, push_target(&g0, m2)).contains(p),
                result matches CorralResult::Prune(p) ==> exists|m: (int, int)| #[trigger]
                    leaves(&g0, reachable, m) && pruning_region(&g0, reachable, push_target(&g0, m)) && p@
                        == region_pushes(
                        &g0,
                        region_at(&g0, reachable.boxes@, push_target(&g0, m)),
                        reachable.squares@,
                        edge_of(&g0, region_at(&g0, reachable.boxes@, push_target(&g0, m)), reachable.boxes@),
                    ),
            ensures
                result is NoCorral ==> forall|m: (int, int)| #[trigger]
                    leaves(&g0, reachable, m) ==> visited@.contains(push_target(&g0, m)) || !needs_push(
                        &g0,
                        region_at(&g0, reachable.boxes@, push_target(&g0, m)),
                    ),
            decreases it@.len(),
        {
            proof {
                reachable.moves.lemma_bounded();
                vstd::set_lib::lemma_len_subset(it@, reachable.moves@);
            }
            let ghost before = it@;
            let next = it.next();
            let push = match next {
                Some(p) => p,
                None => {
                    proof {
                        assert forall|m: (int, int)| #[trigger] leaves(&g0, reachable, m) implies visited@.contains(
                            push_target(&g0, m),
                        ) || !needs_push(&g0, region_at(&g0, reachable.boxes@, push_target(&g0, m))) by {
                            assert(!before.contains(m));
                        }
                    }
                    break;
                },
            };
            proof {
                assert(reachable.moves@.contains(move_key(push)));
                lemma_dir_num(push.direction);
                game.lemma_wf_core();
                game.lemma_wf();
            }
            let box_pos = game.box_position(push.box_index());
            let new_pos = game.move_position(box_pos, push.direction()).unwrap();
            let ghost mk = move_key(push);
            let ghost it1 = it@;
            let ghost vis0 = visited@;
            let ghost res0 = result;
            proof {
                game.lemma_neighbor_on_grid(box_pos, push.direction);
                assert(new_pos == push_target(&g0, mk));
                lemma_region_same(&*game, &g0, reachable.boxes@, new_pos, reachable.squares@);
            }
            if !reachable.squares.get(new_pos) && !visited.get(new_pos) {
                if let Some(corral) = compute_corral(game, new_pos, reachable) {
                    let ghost e = region_at(&g0, reachable.boxes@, new_pos);
                    let ghost edge = edge_of(&g0, e, reachable.boxes@);
                    proof {
                        assert(Set::new(|i: int| corral.boxes@.contains(i) && reachable.boxes@.contains(i)) =~= edge_of(
                            &*game,
                            e,
                            reachable.boxes@,
                        ));
                        assert(corral.i_condition == i_cond(&g0, e, edge));
                        assert(corral.p_condition == p_cond(&g0, e, reachable.squares@, edge));
                        assert(corral.pushes@ =~= region_pushes(&g0, e, reachable.squares@, edge));
                        assert(e.contains(new_pos));
                        assert(leaves(&g0, reachable, mk));
                    }
                    visited.set_all(&corral.extent);
                    if corral.i_condition {
                        let ghost gs = *game;
                        if self.deadlocks.search(game, &corral) == DeadlockResult::Deadlocked {
                            proof {
                                assert(corral.boxes@ =~= region_boxes(&g0, e));
                                assert forall|g2: Game| #[trigger] projected(&g0, region_boxes(&g0, e), &g2) implies no_exit(&g2, e)
                                    || self.deadlock_entry(node_key(self.keys(), &g2, self.keys().boxes_key(g2.box_list())))
                                    == Some(DeadlockResult::Deadlocked) by {
                                    assert(projected(&gs, corral.boxes@, &g2));
                                }
                                assert(leaves(&g0, reachable, mk));
                            }
                            return CorralResult::Deadlocked;
                        }
                        if corral.p_condition {
                            let cost = corral.pushes.len();
                            if cost < min_cost {
                                proof {
                                    assert forall|m: (int, int)| #[trigger] corral.pushes@.contains(m) implies {
                                        &&& 0 <= m.0 < 4
                                        &&& 0 <= m.1 < g0.box_list().len()
                                        &&& g0.push_free(m.1, dir_at(m.0))
                                    } by {
                                        assert(corral.boxes@.contains(m.1));
                                    }
                                    assert(pruning_region(&g0, reachable, push_target(&g0, mk)));
                                }
                                result = CorralResult::Prune(corral.pushes);
                                min_cost = cost;
                            }
                        } else {
                            proof {
                                assert(idle_region(&g0, reachable, push_target(&g0, mk)));
                            }
                        }
                    } else {
                        proof {
                            assert(idle_region(&g0, reachable, push_target(&g0, mk)));
                        }
                    }
                    proof {
                        if result is NoCorral {
                            assert(res0 is NoCorral);
                            assert(idle_region(&g0, reachable, push_target(&g0, mk)));
                            assert forall|p: Position| #[trigger] visited@.contains(p) implies exists|m2: (int, int)| #[trigger]
                                leaves(&g0, reachable, m2) && idle_region(&g0, reachable, push_target(&g0, m2))
                                    && region_at(&g0, reachable.boxes@, push_target(&g0, m2)).contains(p) by {
                                if !vis0.contains(p) {
                                    assert(e.contains(p));
                                }
                            }
                        }
                    }
                }
            }
        }
        proof {
            if result is NoCorral {
                assert forall|m: (int, int)| #[trigger] leaves(&g0, reachable, m) implies !pruning_region(
                    &g0,
                    reachable,
                    push_target(&g0, m),
                ) || exists|m2: (int, int)| #[trigger]
                    leaves(&g0, reachable, m2) && idle_region(&g0, reachable, push_target(&g0, m2))
                        && region_at(&g0, reachable.boxes@, push_target(&g0, m2)).contains(push_target(&g0, m)) by {
                    if visited@.contains(push_target(&g0, m)) {
                    }
                }
            }
        }
        result
    }
}

} // verus!
