use arrayvec::ArrayVec;
use std::rc::Rc;
use vstd::prelude::*;

use crate::bits::{on_grid, Bitvector, Index, Position};
use crate::plist::{ilist_len, ilist_new, ilist_pop, ilist_push, index_list};
use crate::game::{Game, Tile};
use crate::moves::{dir_at, Direction};
use crate::reach::{cell, lemma_cell_grid_pos};
use crate::zobrist::{subset_key, Zobrist};

verus! {

/// The boxes that can no longer move, tracked as a search goes deeper.
pub trait FrozenBoxes {
    /// The boxes known to be frozen.
    spec fn frozen_set(&self) -> Set<int>;

    /// Checks whether the box and the boxes it touches are frozen. `None`
    /// means that they are frozen and one of them is off its goal (a
    /// deadlock); otherwise the newly frozen boxes and a hash of all frozen
    /// boxes.
    fn compute_frozen(&mut self, game: &Game, box_idx: Index) -> (r: Option<(Bitvector, u64)>)
        requires
            game.wf(),
            box_idx.0 < game.box_list().len(),
            !old(self).frozen_set().contains(box_idx.0 as int),
            forall|i: int| #[trigger] old(self).frozen_set().contains(i) ==> 0 <= i < game.box_list().len(),
        ensures
            forall|i: int| #[trigger] final(self).frozen_set().contains(i) ==> 0 <= i < game.box_list().len(),
            match r {
                None => final(self).frozen_set() == old(self).frozen_set(),
                Some((b, _)) => final(self).frozen_set() == old(self).frozen_set().union(b@),
            },
    ;

    /// Forgets that the given boxes are frozen.
    fn clear_frozen(&mut self, boxes: Bitvector)
        requires
            boxes@.subset_of(old(self).frozen_set()),
        ensures
            final(self).frozen_set() == old(self).frozen_set().difference(boxes@),
    ;
}

/// In a reverse search no box is ever frozen.
pub struct ReverseFrozenBoxes;

impl FrozenBoxes for ReverseFrozenBoxes {
    open spec fn frozen_set(&self) -> Set<int> {
        Set::empty()
    }

    fn compute_frozen(&mut self, _game: &Game, _box_idx: Index) -> (r: Option<(Bitvector, u64)>)
        ensures
            r matches Some((b, h)) && b@ == Set::<int>::empty() && h == 0,
    {
        Some((Bitvector::new(), 0))
    }

    fn clear_frozen(&mut self, _boxes: Bitvector) {
    }
}

/// The freeze check of one group of boxes.
pub enum Freeze {
    /// Some box of the group can still move.
    NotFrozen,
    /// The whole group is frozen, every box on a goal.
    Frozen(Bitvector),
    /// The whole group is frozen, and some box is off its goal.
    Deadlocked(Bitvector),
}

/// A box is held along an axis on one side: by the edge of the board, a
/// wall, a box not yet checked, or a box already checked and frozen.
pub open spec fn held(g: &Game, b: int, d: Direction, frozen: Set<int>, visited: Set<int>) -> bool {
    match g.neighbor(g.box_list()[b], d) {
        Some(next) => if g.has_box(next) {
            forall|i: int|
                0 <= i < g.box_list().len() && #[trigger] g.box_list()[i] == next && visited.contains(i)
                    ==> frozen.contains(i)
        } else {
            g.spec_tile(next) == Tile::Wall
        },
        None => true,
    }
}

/// On one side along an axis the box cannot be pushed away from: the edge
/// of the board, a wall or another box.
pub open spec fn stuck(g: &Game, b: int, d: Direction) -> bool {
    match g.neighbor(g.box_list()[b], d) {
        Some(next) => g.has_box(next) || g.spec_tile(next) == Tile::Wall,
        None => true,
    }
}

/// The box is stuck on one side of each axis.
pub open spec fn axis_stuck(g: &Game, b: int) -> bool {
    &&& stuck(g, b, Direction::Left) || stuck(g, b, Direction::Right)
    &&& stuck(g, b, Direction::Up) || stuck(g, b, Direction::Down)
}

/// Box `j` stands next to box `i`, in direction `d`.
pub open spec fn adjacent(g: &Game, i: int, j: int, d: Direction) -> bool {
    &&& 0 <= j < g.box_list().len()
    &&& g.neighbor(g.box_list()[i], d) == Some(g.box_list()[j])
}

/// `s` holds box `start` and every box that is not frozen and stands next to
/// a box of `s`; it holds no frozen box.
pub open spec fn closed_group(g: &Game, frozen: Set<int>, start: int, s: Set<int>) -> bool {
    &&& s.contains(start)
    &&& forall|i: int| #[trigger] s.contains(i) ==> 0 <= i < g.box_list().len() && !frozen.contains(i)
    &&& forall|i: int, j: int, d: Direction|
        s.contains(i) && #[trigger] adjacent(g, i, j, d) && !frozen.contains(j) ==> s.contains(j)
}

/// `s` is the group of box `start`: the least set closed as above, the boxes
/// that touch `start` directly or through each other, frozen boxes left out.
pub open spec fn is_group(g: &Game, frozen: Set<int>, start: int, s: Set<int>) -> bool {
    &&& closed_group(g, frozen, start, s)
    &&& forall|t: Set<int>| #[trigger] closed_group(g, frozen, start, t) ==> s.subset_of(t)
}

/// The group of box `start`.
pub open spec fn frozen_group(g: &Game, frozen: Set<int>, start: int) -> Set<int> {
    choose|s: Set<int>| is_group(g, frozen, start, s)
}

/// Every box of the set is stuck on both axes.
pub open spec fn group_frozen(g: &Game, s: Set<int>) -> bool {
    forall|i: int| #[trigger] s.contains(i) ==> axis_stuck(g, i)
}

/// Some box of the set is off its goal.
pub open spec fn some_off_goal(g: &Game, s: Set<int>) -> bool {
    exists|i: int| #[trigger] s.contains(i) && g.spec_tile(g.box_list()[i]) != Tile::Goal
}

/// The boxes that a check of box `start` freezes, given those already frozen:
/// its group when all of the group is stuck, else none.
pub open spec fn new_frozen(g: &Game, frozen: Set<int>, start: int) -> Set<int> {
    if !frozen.contains(start) && group_frozen(g, frozen_group(g, frozen, start)) {
        frozen_group(g, frozen, start)
    } else {
        Set::empty()
    }
}

/// The check of box `start` finds its group frozen with a box off its goal.
pub open spec fn step_deadlocked(g: &Game, frozen: Set<int>, start: int) -> bool {
    &&& !frozen.contains(start)
    &&& group_frozen(g, frozen_group(g, frozen, start))
    &&& some_off_goal(g, frozen_group(g, frozen, start))
}

/// The frozen boxes after the first `k` boxes were checked in turn.
pub open spec fn frozen_after(g: &Game, k: nat) -> Set<int>
    decreases k,
{
    if k == 0 {
        Set::empty()
    } else {
        let f = frozen_after(g, (k - 1) as nat);
        f.union(new_frozen(g, f, k - 1))
    }
}

/// A group is unique.
proof fn lemma_group_unique(g: &Game, frozen: Set<int>, start: int, s: Set<int>)
    requires
        is_group(g, frozen, start, s),
    ensures
        frozen_group(g, frozen, start) == s,
{
    let c = frozen_group(g, frozen, start);
    assert(is_group(g, frozen, start, c));
    assert(c.subset_of(s));
    assert(s.subset_of(c));
    assert(c =~= s);
}

/// Where every checked box but `b` is frozen, a side of `b` is held exactly
/// when it is stuck.
proof fn lemma_held_stuck(g: &Game, b: int, d: Direction, frozen: Set<int>, visited: Set<int>)
    requires
        g.wf_core(),
        0 <= b < g.box_list().len(),
        forall|i: int| #[trigger] visited.contains(i) && i != b ==> frozen.contains(i),
    ensures
        held(g, b, d, frozen, visited) == stuck(g, b, d),
{
    lemma_neighbor_differs(g, g.box_list()[b], d);
}

/// A square next to another is not the square itself.
proof fn lemma_neighbor_differs(g: &Game, p: Position, d: Direction)
    requires
        g.wf_core(),
    ensures
        g.neighbor(p, d) matches Some(q) ==> q != p,
{
    g.lemma_neighbor_on_grid(p, d);
}

fn check_direction(game: &Game, box_idx: Index, dir: Direction, frozen: &Bitvector, visited: &Bitvector) -> (r:
    bool)
    requires
        game.wf(),
        box_idx.0 < game.box_list().len(),
    ensures
        r == held(game, box_idx.0 as int, dir, frozen@, visited@),
{
    proof {
        game.lemma_wf_core();
        game.lemma_wf();
    }
    let pos = game.box_position(box_idx);
    if let Some(next_pos) = game.move_position(pos, dir) {
        proof {
            game.lemma_neighbor_on_grid(pos, dir);
        }
        if let Some(next_box_idx) = game.box_index(next_pos) {
            proof {
                assert(next_box_idx.0 < 64);
                assert forall|i: int|
                    0 <= i < game.box_list().len() && #[trigger] game.box_list()[i] == next_pos implies i
                        == next_box_idx.0 by {
                    assert(game.box_list().no_duplicates());
                }
            }
            if visited.contains(next_box_idx) {
                frozen.contains(next_box_idx)
            } else {
                true
            }
        } else {
            game.get_tile(next_pos) == Tile::Wall
        }
    } else {
        true
    }
}

fn check_horizontal(game: &Game, box_idx: Index, frozen: &Bitvector, visited: &Bitvector) -> (r: bool)
    requires
        game.wf(),
        box_idx.0 < game.box_list().len(),
    ensures
        r == (held(game, box_idx.0 as int, Direction::Left, frozen@, visited@) || held(
            game,
            box_idx.0 as int,
            Direction::Right,
            frozen@,
            visited@,
        )),
{
    check_direction(game, box_idx, Direction::Left, frozen, visited) || check_direction(
        game,
        box_idx,
        Direction::Right,
        frozen,
        visited,
    )
}

fn check_vertical(game: &Game, box_idx: Index, frozen: &Bitvector, visited: &Bitvector) -> (r: bool)
    requires
        game.wf(),
        box_idx.0 < game.box_list().len(),
    ensures
        r == (held(game, box_idx.0 as int, Direction::Up, frozen@, visited@) || held(
            game,
            box_idx.0 as int,
            Direction::Down,
            frozen@,
            visited@,
        )),
{
    check_direction(game, box_idx, Direction::Up, frozen, visited) || check_direction(
        game,
        box_idx,
        Direction::Down,
        frozen,
        visited,
    )
}

/// Checks the group of boxes that touch the given box (directly or through
/// each other), leaving out boxes already frozen. The boxes are checked in
/// the reverse order of their discovery; a box is frozen when it is held on
/// both axes.
pub fn freeze_check(game: &Game, frozen: &Bitvector, box_idx: Index) -> (r: Freeze)
    requires
        game.wf(),
        box_idx.0 < game.box_list().len(),
        !frozen@.contains(box_idx.0 as int),
    ensures
        is_group(game, frozen@, box_idx.0 as int, frozen_group(game, frozen@, box_idx.0 as int)),
        match r {
            Freeze::NotFrozen => !group_frozen(game, frozen_group(game, frozen@, box_idx.0 as int)),
            Freeze::Frozen(b) => {
                &&& b@ == frozen_group(game, frozen@, box_idx.0 as int)
                &&& group_frozen(game, b@)
                &&& !some_off_goal(game, b@)
                &&& b@.contains(box_idx.0 as int)
                &&& b@.disjoint(frozen@)
                &&& forall|i: int| #[trigger] b@.contains(i) ==> 0 <= i < game.box_list().len()
                    && game.spec_tile(game.box_list()[i]) == Tile::Goal
            },
            Freeze::Deadlocked(b) => {
                &&& b@ == frozen_group(game, frozen@, box_idx.0 as int)
                &&& group_frozen(game, b@)
                &&& some_off_goal(game, b@)
                &&& b@.contains(box_idx.0 as int)
                &&& b@.disjoint(frozen@)
                &&& forall|i: int| #[trigger] b@.contains(i) ==> 0 <= i < game.box_list().len()
                &&& exists|i: int| #[trigger] b@.contains(i) && game.spec_tile(game.box_list()[i]) != Tile::Goal
            },
        },
{
    proof {
        game.lemma_wf_core();
        game.lemma_wf();
    }
    let n = game.box_count();
    let mut deadlocked = false;
    let mut boxes = Bitvector::new();
    let mut visited = Bitvector::new();
    let mut to_visit: ArrayVec<Index, 64> = ilist_new();
    let mut to_process: ArrayVec<Index, 64> = ilist_new();
    visited.add(box_idx);
    ilist_push(&mut to_visit, box_idx);
    proof {
        visited.lemma_bounded();
        assert(index_list(to_visit)[0] == box_idx);
    }
    while ilist_len(&to_visit) > 0
        invariant
            game.wf(),
            game.wf_core(),
            n == game.box_list().len(),
            n <= 64,
            forall|i: int| 0 <= i < n ==> on_grid(#[trigger] game.box_list()[i]),
            !frozen@.contains(box_idx.0 as int),
            visited@.contains(box_idx.0 as int),
            visited@.finite(),
            visited@.disjoint(frozen@),
            forall|i: int| #[trigger] visited@.contains(i) ==> 0 <= i < n,
            forall|j: int| 0 <= j < index_list(to_visit).len() ==> visited@.contains((#[trigger] index_list(to_visit)[j]).0 as int),
            forall|j: int| 0 <= j < index_list(to_process).len() ==> boxes@.contains((#[trigger] index_list(to_process)[j]).0 as int),
            forall|i: int| #[trigger] boxes@.contains(i) ==> exists|j: int|
                0 <= j < index_list(to_process).len() && (#[trigger] index_list(to_process)[j]).0 == i,
            forall|i: int| #[trigger] boxes@.contains(i) ==> visited@.contains(i),
            boxes@.contains(box_idx.0 as int) || (boxes@.len() == 0 && index_list(to_visit) =~= seq![box_idx]),
            forall|j: int| 0 <= j < index_list(to_visit).len() ==> !boxes@.contains((#[trigger] index_list(to_visit)[j]).0 as int),
            forall|j1: int, j2: int|
                0 <= j1 < index_list(to_visit).len() && 0 <= j2 < index_list(to_visit).len() && j1 != j2 ==> (#[trigger] index_list(to_visit)[j1]).0
                    != (#[trigger] index_list(to_visit)[j2]).0,
            index_list(to_visit).len() + boxes@.len() <= visited@.len(),
            visited@.len() <= 64,
            boxes@.finite(),
            index_list(to_process).len() == boxes@.len(),
            game.box_list().no_duplicates(),
            forall|t: Set<int>| #[trigger] closed_group(game, frozen@, box_idx.0 as int, t) ==> visited@.subset_of(t),
            forall|i: int| #[trigger] visited@.contains(i) ==> boxes@.contains(i) || exists|j: int|
                0 <= j < index_list(to_visit).len() && (#[trigger] index_list(to_visit)[j]).0 == i,
            forall|i: int, j: int, d: Direction|
                boxes@.contains(i) && #[trigger] adjacent(game, i, j, d) && !frozen@.contains(j) ==> visited@.contains(j),
        decreases 2 * (64 - visited@.len()) + index_list(to_visit).len(),
    {
        proof {
            visited.lemma_bounded();
            boxes.lemma_bounded();
        }
        let ghost m0 = 2 * (64 - visited@.len()) + index_list(to_visit).len();
        let ghost tv0 = index_list(to_visit);
        let ghost tp0 = index_list(to_process);
        let b = ilist_pop(&mut to_visit).unwrap();
        proof {
            assert(b == tv0[tv0.len() - 1]);
            assert(!boxes@.contains(b.0 as int));
            assert(visited@.contains(b.0 as int));
        }
        ilist_push(&mut to_process, b);
        let ghost bx0 = boxes@;
        boxes.add(b);
        proof {
            boxes.lemma_bounded();
            assert(boxes@.len() == bx0.len() + 1);
            assert forall|j: int| 0 <= j < index_list(to_visit).len() implies !boxes@.contains((#[trigger] index_list(to_visit)[j]).0 as int) by {
                assert(index_list(to_visit)[j] == tv0[j]);
                assert(tv0[j].0 != tv0[tv0.len() - 1].0);
            }
            assert forall|j: int| 0 <= j < index_list(to_process).len() implies boxes@.contains((#[trigger] index_list(to_process)[j]).0 as int) by {
                if j < tp0.len() {
                    assert(index_list(to_process)[j] == tp0[j]);
                }
            }
            assert forall|i: int| #[trigger] boxes@.contains(i) implies exists|j: int|
                0 <= j < index_list(to_process).len() && (#[trigger] index_list(to_process)[j]).0 == i by {
                if i == b.0 {
                    assert(index_list(to_process)[tp0.len() as int] == b);
                } else {
                    let j = choose|j: int| 0 <= j < tp0.len() && (#[trigger] tp0[j]).0 == i;
                    assert(index_list(to_process)[j] == tp0[j]);
                }
            }
            if bx0.len() == 0 {
                assert(b == box_idx);
            }
            assert forall|i: int| #[trigger] visited@.contains(i) implies boxes@.contains(i) || exists|j: int|
                0 <= j < index_list(to_visit).len() && (#[trigger] index_list(to_visit)[j]).0 == i by {
                if !bx0.contains(i) {
                    let j = choose|j: int| 0 <= j < tv0.len() && (#[trigger] tv0[j]).0 == i;
                    if j < tv0.len() - 1 {
                        assert(index_list(to_visit)[j] == tv0[j]);
                    }
                }
            }
        }
        let pos = game.box_position(b);
        let mut k: usize = 0;
        while k < 4
            invariant
                game.wf(),
                game.wf_core(),
                n == game.box_list().len(),
                n <= 64,
                k <= 4,
                on_grid(pos),
                visited@.contains(box_idx.0 as int),
                visited@.finite(),
                visited@.disjoint(frozen@),
                forall|i: int| #[trigger] visited@.contains(i) ==> 0 <= i < n,
                forall|j: int| 0 <= j < index_list(to_visit).len() ==> visited@.contains((#[trigger] index_list(to_visit)[j]).0 as int),
                forall|j: int| 0 <= j < index_list(to_process).len() ==> boxes@.contains((#[trigger] index_list(to_process)[j]).0 as int),
                forall|i: int| #[trigger] boxes@.contains(i) ==> exists|j: int|
                    0 <= j < index_list(to_process).len() && (#[trigger] index_list(to_process)[j]).0 == i,
                forall|i: int| #[trigger] boxes@.contains(i) ==> visited@.contains(i),
                boxes@.contains(box_idx.0 as int),
                forall|j: int| 0 <= j < index_list(to_visit).len() ==> !boxes@.contains((#[trigger] index_list(to_visit)[j]).0 as int),
                forall|j1: int, j2: int|
                    0 <= j1 < index_list(to_visit).len() && 0 <= j2 < index_list(to_visit).len() && j1 != j2 ==> (#[trigger] index_list(to_visit)[j1]).0
                        != (#[trigger] index_list(to_visit)[j2]).0,
                index_list(to_visit).len() + boxes@.len() <= visited@.len(),
                visited@.len() <= 64,
                boxes@.finite(),
                index_list(to_process).len() == boxes@.len(),
                2 * (64 - visited@.len()) + index_list(to_visit).len() < m0,
                game.box_list().no_duplicates(),
                b.0 < n,
                pos == game.box_list()[b.0 as int],
                boxes@.contains(b.0 as int),
                forall|t: Set<int>| #[trigger] closed_group(game, frozen@, box_idx.0 as int, t) ==> visited@.subset_of(t),
                forall|i: int| #[trigger] visited@.contains(i) ==> boxes@.contains(i) || exists|j: int|
                    0 <= j < index_list(to_visit).len() && (#[trigger] index_list(to_visit)[j]).0 == i,
                forall|i: int, j: int, d: Direction|
                    boxes@.contains(i) && i != b.0 && #[trigger] adjacent(game, i, j, d) && !frozen@.contains(j)
                        ==> visited@.contains(j),
                forall|j: int, kk: int|
                    0 <= kk < k && #[trigger] adjacent(game, b.0 as int, j, dir_at(kk)) && !frozen@.contains(j)
                        ==> visited@.contains(j),
            decreases 4 - k,
        {
            let dir = Direction::from_index(k);
            if let Some(next_pos) = game.move_position(pos, dir) {
                proof {
                    game.lemma_neighbor_on_grid(pos, dir);
                }
                if let Some(next_box_idx) = game.box_index(next_pos) {
                    if !visited.contains(next_box_idx) && !frozen.contains(next_box_idx) {
                        let ghost v0 = visited@;
                        let ghost tv1 = index_list(to_visit);
                        proof {
                            visited.lemma_bounded();
                        }
                        visited.add(next_box_idx);
                        ilist_push(&mut to_visit, next_box_idx);
                        proof {
                            visited.lemma_bounded();
                            assert(visited@.len() == v0.len() + 1);
                            assert forall|j: int| 0 <= j < index_list(to_visit).len() implies visited@.contains((#[trigger] index_list(to_visit)[j]).0 as int) by {
                                if j < tv1.len() {
                                    assert(index_list(to_visit)[j] == tv1[j]);
                                }
                            }
                            assert forall|j: int| 0 <= j < index_list(to_visit).len() implies !boxes@.contains((#[trigger] index_list(to_visit)[j]).0 as int) by {
                                if j < tv1.len() {
                                    assert(index_list(to_visit)[j] == tv1[j]);
                                }
                            }
                            assert forall|j1: int, j2: int|
                                0 <= j1 < index_list(to_visit).len() && 0 <= j2 < index_list(to_visit).len() && j1 != j2 implies (#[trigger] index_list(to_visit)[j1]).0
                                    != (#[trigger] index_list(to_visit)[j2]).0 by {
                                if j1 < tv1.len() {
                                    assert(index_list(to_visit)[j1] == tv1[j1]);
                                    assert(v0.contains(tv1[j1].0 as int));
                                }
                                if j2 < tv1.len() {
                                    assert(index_list(to_visit)[j2] == tv1[j2]);
                                    assert(v0.contains(tv1[j2].0 as int));
                                }
                            }
                            assert(adjacent(game, b.0 as int, next_box_idx.0 as int, dir));
                            assert forall|t: Set<int>| #[trigger] closed_group(game, frozen@, box_idx.0 as int, t) implies visited@.subset_of(t) by {
                                assert(v0.subset_of(t));
                                assert(t.contains(b.0 as int));
                                assert(t.contains(next_box_idx.0 as int));
                            }
                            assert forall|i: int| #[trigger] visited@.contains(i) implies boxes@.contains(i) || exists|j: int|
                                0 <= j < index_list(to_visit).len() && (#[trigger] index_list(to_visit)[j]).0 == i by {
                                if i == next_box_idx.0 {
                                    assert(index_list(to_visit)[tv1.len() as int] == next_box_idx);
                                } else if !boxes@.contains(i) {
                                    let j = choose|j: int| 0 <= j < tv1.len() && (#[trigger] tv1[j]).0 == i;
                                    assert(index_list(to_visit)[j] == tv1[j]);
                                }
                            }
                        }
                    }
                }
            }
            proof {
                assert forall|j: int| #[trigger] adjacent(game, b.0 as int, j, dir_at(k as int)) && !frozen@.contains(j)
                    implies visited@.contains(j) by {
                    assert(game.box_list()[j] == game.box_list()[j]);
                    assert(game.box_list().contains(game.box_list()[j]));
                }
            }
            k = k + 1;
        }
        proof {
            assert forall|i: int, j: int, d: Direction|
                boxes@.contains(i) && #[trigger] adjacent(game, i, j, d) && !frozen@.contains(j) implies visited@.contains(j) by {
                if i == b.0 {
                    crate::moves::lemma_dir_num(d);
                    assert(adjacent(game, b.0 as int, j, dir_at(crate::moves::dir_num(d))));
                }
            }
        }
    }
    proof {
        assert forall|i: int| #[trigger] visited@.contains(i) implies boxes@.contains(i) by {}
        assert(closed_group(game, frozen@, box_idx.0 as int, boxes@));
        assert forall|t: Set<int>| #[trigger] closed_group(game, frozen@, box_idx.0 as int, t) implies boxes@.subset_of(t) by {
            assert(visited@.subset_of(t));
        }
        lemma_group_unique(game, frozen@, box_idx.0 as int, boxes@);
    }
    let mut frozen_now = *frozen;
    visited = Bitvector::new();
    while ilist_len(&to_process) > 0
        invariant
            game.wf(),
            n == game.box_list().len(),
            n <= 64,
            boxes@.contains(box_idx.0 as int),
            boxes@.disjoint(frozen@),
            forall|i: int| #[trigger] boxes@.contains(i) ==> 0 <= i < n,
            forall|j: int| 0 <= j < index_list(to_process).len() ==> boxes@.contains((#[trigger] index_list(to_process)[j]).0 as int),
            deadlocked ==> exists|i: int| #[trigger] boxes@.contains(i) && game.spec_tile(game.box_list()[i]) != Tile::Goal,
            !deadlocked ==> forall|i: int| #[trigger] boxes@.contains(i) && frozen_now@.contains(i) && !frozen@.contains(i)
                ==> game.spec_tile(game.box_list()[i]) == Tile::Goal,
            forall|i: int| #[trigger] boxes@.contains(i) ==> (frozen_now@.contains(i) || exists|j: int|
                0 <= j < index_list(to_process).len() && (#[trigger] index_list(to_process)[j]).0 == i),
            forall|i: int| #[trigger] frozen_now@.contains(i) ==> frozen@.contains(i) || boxes@.contains(i),
            game.wf_core(),
            game.box_list().no_duplicates(),
            is_group(game, frozen@, box_idx.0 as int, boxes@),
            frozen_group(game, frozen@, box_idx.0 as int) == boxes@,
            forall|i: int| #[trigger] visited@.contains(i) ==> frozen_now@.contains(i),
            forall|i: int| #[trigger] boxes@.contains(i) && frozen_now@.contains(i) ==> axis_stuck(game, i),
        decreases index_list(to_process).len(),
    {
        let ghost tp1 = index_list(to_process);
        let b = ilist_pop(&mut to_process).unwrap();
        proof {
            assert(b == tp1[tp1.len() - 1]);
            assert(boxes@.contains(b.0 as int));
            assert forall|j: int| 0 <= j < index_list(to_process).len() implies boxes@.contains((#[trigger] index_list(to_process)[j]).0 as int) by {
                assert(index_list(to_process)[j] == tp1[j]);
            }
        }
        let ghost fz0 = frozen_now@;
        visited.add(b);
        proof {
            lemma_held_stuck(game, b.0 as int, Direction::Left, frozen_now@, visited@);
            lemma_held_stuck(game, b.0 as int, Direction::Right, frozen_now@, visited@);
            lemma_held_stuck(game, b.0 as int, Direction::Up, frozen_now@, visited@);
            lemma_held_stuck(game, b.0 as int, Direction::Down, frozen_now@, visited@);
        }
        if check_horizontal(game, b, &frozen_now, &visited) && check_vertical(game, b, &frozen_now, &visited) {
            frozen_now.add(b);
            let pos = game.box_position(b);
            proof {
                game.lemma_wf_core();
                game.lemma_wf();
            }
            if game.get_tile(pos) != Tile::Goal {
                deadlocked = true;
            }
            proof {
                assert forall|i: int| #[trigger] boxes@.contains(i) implies (frozen_now@.contains(i) || exists|j: int|
                    0 <= j < index_list(to_process).len() && (#[trigger] index_list(to_process)[j]).0 == i) by {
                    if i != b.0 && !fz0.contains(i) {
                        let j = choose|j: int| 0 <= j < tp1.len() && (#[trigger] tp1[j]).0 == i;
                        assert(j != tp1.len() - 1);
                        assert(index_list(to_process)[j] == tp1[j]);
                    }
                }
            }
        } else {
            proof {
                assert(!axis_stuck(game, b.0 as int));
                assert(boxes@.contains(b.0 as int));
            }
            return Freeze::NotFrozen;
        }
    }
    proof {
        assert forall|i: int| #[trigger] boxes@.contains(i) implies frozen_now@.contains(i) by {}
        assert(group_frozen(game, boxes@));
    }
    if deadlocked {
        return Freeze::Deadlocked(boxes);
    }
    Freeze::Frozen(boxes)
}

pub struct ForwardFrozenBoxes {
    frozen: Bitvector,
    zobrist: Rc<Zobrist>,
}

impl ForwardFrozenBoxes {
    /// The hash of the squares of the frozen boxes of a game.
    pub closed spec fn frozen_hash(&self, game: &Game) -> u64 {
        subset_key(&*self.zobrist, game.box_list(), self.frozen@, 64)
    }

    /// The frozen boxes of a game, found by checking each box that is not yet
    /// frozen. `None` where a box is frozen off its goal at the start.
    pub fn new(game: &Game, zobrist: Rc<Zobrist>) -> (r: Option<Self>)
        requires
            game.wf(),
        ensures
            r matches Some(f) ==> forall|i: int| #[trigger] f.frozen_set().contains(i) ==> 0 <= i < game.box_list().len(),
            r is None <==> exists|k: int|
                0 <= k < game.box_list().len() && #[trigger] step_deadlocked(game, frozen_after(game, k as nat), k),
            r matches Some(f) ==> f.frozen_set() == frozen_after(game, game.box_list().len()),
    {
        proof {
            game.lemma_wf_core();
            game.lemma_wf();
        }
        let mut result = ForwardFrozenBoxes { frozen: Bitvector::new(), zobrist };
        let n = game.box_count();
        let mut box_idx: usize = 0;
        while box_idx < n
            invariant
                game.wf(),
                n == game.box_list().len(),
                n <= 64,
                box_idx <= n,
                forall|i: int| #[trigger] result.frozen_set().contains(i) ==> 0 <= i < n,
                result.frozen_set() == frozen_after(game, box_idx as nat),
                forall|k: int| 0 <= k < box_idx ==> !#[trigger] step_deadlocked(game, frozen_after(game, k as nat), k),
            decreases n - box_idx,
        {
            let b = Index(box_idx as u8);
            let ghost f0 = result.frozen_set();
            if !result.frozen.contains(b) {
                let r = result.compute_frozen(game, b);
                if r.is_none() {
                    proof {
                        let k = box_idx as int;
                        assert(step_deadlocked(game, frozen_after(game, k as nat), k));
                    }
                    return None;
                }
            } else {
                proof {
                    assert(f0.union(new_frozen(game, f0, box_idx as int)) =~= f0);
                }
            }
            proof {
                assert(result.frozen_set() == frozen_after(game, (box_idx + 1) as nat));
            }
            box_idx = box_idx + 1;
        }
        Some(result)
    }

    /// The hash of the frozen boxes' squares.
    fn compute_hash(&self, game: &Game) -> (r: u64)
        requires
            game.wf(),
            forall|i: int| #[trigger] self.frozen@.contains(i) ==> 0 <= i < game.box_list().len(),
        ensures
            r == subset_key(&*self.zobrist, game.box_list(), self.frozen@, 64),
    {
        self.zobrist.compute_boxes_hash_subset(game, self.frozen)
    }
}

impl FrozenBoxes for ForwardFrozenBoxes {
    closed spec fn frozen_set(&self) -> Set<int> {
        self.frozen@
    }

    fn compute_frozen(&mut self, game: &Game, box_idx: Index) -> (r: Option<(Bitvector, u64)>)
        ensures
            r is None <==> step_deadlocked(game, old(self).frozen_set(), box_idx.0 as int),
            match r {
                None => true,
                Some((b, h)) => {
                    &&& b@ == new_frozen(game, old(self).frozen_set(), box_idx.0 as int)
                    &&& h == final(self).frozen_hash(game)
                },
            },
    {
        match freeze_check(game, &self.frozen, box_idx) {
            Freeze::NotFrozen => {
                let h = self.compute_hash(game);
                let empty = Bitvector::new();
                proof {
                    assert(self.frozen@.union(empty@) =~= self.frozen@);
                    assert(empty@ =~= new_frozen(game, self.frozen@, box_idx.0 as int));
                }
                Some((empty, h))
            },
            Freeze::Deadlocked(_) => None,
            Freeze::Frozen(b) => {
                self.frozen = self.frozen.union(&b);
                let h = self.compute_hash(game);
                Some((b, h))
            },
        }
    }

    fn clear_frozen(&mut self, boxes: Bitvector) {
        self.frozen.remove_all(&boxes);
    }
}

/// The boxes frozen at the start of a game: each box not yet frozen is
/// checked in turn, and what it freezes is added.
pub fn compute_frozen_boxes(game: &Game) -> (r: Bitvector)
    requires
        game.wf(),
    ensures
        forall|i: int| #[trigger] r@.contains(i) ==> 0 <= i < game.box_list().len(),
        r@ == frozen_after(game, game.box_list().len()),
{
    proof {
        game.lemma_wf_core();
        game.lemma_wf();
    }
    let n = game.box_count();
    let mut frozen = Bitvector::new();
    let mut box_idx: usize = 0;
    while box_idx < n
        invariant
            game.wf(),
            n == game.box_list().len(),
            n <= 64,
            box_idx <= n,
            forall|i: int| #[trigger] frozen@.contains(i) ==> 0 <= i < n,
            frozen@ == frozen_after(game, box_idx as nat),
        decreases n - box_idx,
    {
        let b = Index(box_idx as u8);
        let added = compute_new_frozen_boxes(&frozen, game, b);
        frozen = frozen.union(&added);
        box_idx = box_idx + 1;
    }
    frozen
}

/// The boxes that a move of the given box freezes, given those already
/// frozen: the group of the moved box when all of it is held, else none.
pub fn compute_new_frozen_boxes(frozen: &Bitvector, game: &Game, box_idx: Index) -> (r: Bitvector)
    requires
        game.wf(),
        box_idx.0 < game.box_list().len(),
    ensures
        forall|i: int| #[trigger] r@.contains(i) ==> 0 <= i < game.box_list().len(),
        r@.disjoint(frozen@),
        r@ == new_frozen(game, frozen@, box_idx.0 as int),
{
    proof {
        game.lemma_wf_core();
        game.lemma_wf();
    }
    if frozen.contains(box_idx) {
        let r = Bitvector::new();
        proof {
            assert(r@ =~= new_frozen(game, frozen@, box_idx.0 as int));
        }
        return r;
    }
    match freeze_check(game, frozen, box_idx) {
        Freeze::NotFrozen => Bitvector::new(),
        Freeze::Frozen(b) => b,
        Freeze::Deadlocked(b) => b,
    }
}

} // verus!
