use std::collections::HashMap;
use std::ops::Range;
use std::rc::Rc;
use vstd::prelude::*;

use crate::bits::{on_grid, Bitvector, Index, Position};
use crate::corral::{corral_outcome, CorralResult, CorralSearcher};
use crate::deadlocks::{compute_frozen_boxes, compute_new_frozen_boxes, frozen_after, new_frozen};
use crate::game::{is_top_left, swapped, Checkpoint, Game, ReachableSet, Tile};
use crate::heuristic::{Cost, Heuristic};
use crate::moves::{dir_at, dir_num, lemma_dir_num, move_key, opposite, Direction, Move, Moves, Pull, Push};
use crate::pqueue::PriorityQueue;
use crate::zobrist::{subset_key, Zobrist};

verus! {

#[derive(Debug, Clone, PartialEq, Eq)]
pub enum SolveResult {
    Solved(Vec<Push>),
    Cutoff,
    Unsolvable,
    /// The searches met, but the parents kept in their tables do not lead
    /// back through moves that replay into a solution (two positions can
    /// share a key).
    ReplayFailed,
}

#[derive(Debug, Clone, Copy, PartialEq, Eq, Structural)]
pub enum SearchType {
    Forward,
    Reverse,
    Bidirectional,
}

/// A push told by the square of the box, so that it can be carried from one
/// numbering of the boxes to another.
#[derive(Debug, Clone, Copy, PartialEq, Eq, Structural)]
pub struct PushByPos {
    pub box_pos: Position,
    pub direction: Direction,
}

/// A move `m` (direction number, box index) can be made in a game.
pub open spec fn push_allowed(g: &Game, m: (int, int)) -> bool {
    &&& 0 <= m.0 < 4
    &&& 0 <= m.1 < g.box_list().len()
    &&& g.push_free(m.1, dir_at(m.0))
}

/// A pull `m` (direction number, box index) can be made in a game.
pub open spec fn pull_allowed(g: &Game, m: (int, int)) -> bool {
    &&& 0 <= m.0 < 4
    &&& 0 <= m.1 < g.box_list().len()
    &&& exists|sq: Set<Position>| #[trigger]
        g.walk_region(g.spec_player(), sq) && g.can_pull(sq, m.1, dir_at(m.0))
}

/// A move `m` of a search direction can be made in a game.
pub open spec fn move_allowed(forward: bool, g: &Game, m: (int, int)) -> bool {
    if forward {
        push_allowed(g, m)
    } else {
        pull_allowed(g, m)
    }
}

/// A move `m` of a search direction can be unmade: the opposite move of the
/// other direction can be made.
pub open spec fn unmove_allowed(forward: bool, g: &Game, m: (int, int)) -> bool {
    &&& 0 <= m.0 < 4
    &&& move_allowed(!forward, g, (dir_num(opposite(dir_at(m.0))), m.1))
}

/// `b` is `a` after box `i` was pushed one square in direction `d`: the
/// player stands where the box stood.
pub open spec fn pushed(a: &Game, b: &Game, i: int, d: Direction) -> bool {
    &&& b.same_board(a)
    &&& b.spec_player() == a.box_list()[i]
    &&& b.box_list() == a.box_list().update(i, a.neighbor(a.box_list()[i], d)->0)
}

/// `b` is `a` after box `i` was pulled one square in direction `d`: the
/// player stands one square beyond the box's new square.
pub open spec fn pulled(a: &Game, b: &Game, i: int, d: Direction) -> bool {
    let q = a.neighbor(a.box_list()[i], d)->0;
    &&& b.same_board(a)
    &&& b.spec_player() == a.neighbor(q, d)->0
    &&& b.box_list() == a.box_list().update(i, q)
}

/// A push `m` (direction number, box index) that the player can reach and
/// make in a game.
pub open spec fn reachable_push(g: &Game, m: (int, int)) -> bool {
    &&& 0 <= m.0 < 4
    &&& 0 <= m.1 < g.box_list().len()
    &&& exists|sq: Set<Position>| #[trigger]
        g.walk_region(g.spec_player(), sq) && g.reaches_box(sq, m.1, dir_at(m.0))
    &&& g.push_free(m.1, dir_at(m.0))
}

/// `b` is `a` after move `m` (direction number, box index) of a search
/// direction: a push, or a pull.
pub open spec fn moved(forward: bool, a: &Game, b: &Game, m: (int, int)) -> bool {
    if forward {
        pushed(a, b, m.1, dir_at(m.0))
    } else {
        pulled(a, b, m.1, dir_at(m.0))
    }
}

/// The key of a position told by its player square and its boxes.
pub open spec fn raw_key(z: Zobrist, player: Position, boxes: Seq<Position>) -> u64 {
    z.boxes_key(boxes) ^ z.player_key(player)
}

/// Every line of `a` begins the same line of `b`: `b` is `a` with items
/// added at the ends.
pub open spec fn grows<T>(a: Seq<Seq<T>>, b: Seq<Seq<T>>) -> bool {
    &&& a.len() == b.len()
    &&& forall|p: int| 0 <= p < a.len() ==> a[p].len() <= #[trigger] b[p].len()
    &&& forall|p: int, k: int| 0 <= p < a.len() && 0 <= k < a[p].len() ==> #[trigger] b[p][k] == a[p][k]
}

/// `b` is `a` with move `m` (direction number, box index) of a search
/// direction undone: a pull that undoes a push, or a push that undoes a pull.
pub open spec fn unmade(forward: bool, a: &Game, b: &Game, m: (int, int)) -> bool {
    if forward {
        pulled(a, b, m.1, opposite(dir_at(m.0)))
    } else {
        pushed(a, b, m.1, opposite(dir_at(m.0)))
    }
}

/// The push, told by its box's square, that move `m` of a search direction
/// stands for, read on the game before the push: a push as it is, a pull as
/// the push that it undoes.
pub open spec fn push_by_pos_of(forward: bool, g: &Game, m: (int, int)) -> Option<PushByPos> {
    if !(0 <= m.1 < g.box_list().len()) {
        None
    } else if forward {
        Some(PushByPos { box_pos: g.box_list()[m.1], direction: dir_at(m.0) })
    } else {
        match g.neighbor(g.box_list()[m.1], dir_at(m.0)) {
            Some(q) => Some(PushByPos { box_pos: q, direction: opposite(dir_at(m.0)) }),
            None => None,
        }
    }
}

/// The key of a game's position: its boxes and the first square, in reading
/// order, of the player's region.
pub open spec fn position_key(z: Zobrist, g: Game) -> u64 {
    z.boxes_key(g.box_list()) ^ z.player_key(choose|c: Position| is_top_left(c, g.region(g.spec_player())))
}

/// The Zobrist keys behind a shared pointer.
spec fn zobrist_of(z: &Rc<Zobrist>) -> Zobrist {
    **z
}

/// The node holds the player on one of the start squares, and the boxes
/// `boxes`.
spec fn node_from(nd: Node, starts: Seq<Position>, boxes: Seq<Position>) -> bool {
    exists|j: int| 0 <= j < starts.len() && nd.checkpoint.spec_player() == starts[j] && nd.checkpoint.spec_boxes() == boxes
}

/// Some node of the queue holds the player on `p` and the boxes `boxes`.
spec fn open_has(q: Seq<Seq<Node>>, p: Position, boxes: Seq<Position>) -> bool {
    exists|pp: int, k: int|
        0 <= pp < q.len() && 0 <= k < q[pp].len() && (#[trigger] q[pp][k]).checkpoint.spec_player() == p
            && q[pp][k].checkpoint.spec_boxes() == boxes
}

/// A region has one first square.
proof fn lemma_position_key(z: Zobrist, g: Game, h: u64)
    requires
        exists|c: Position|
            #[trigger] is_top_left(c, g.region(g.spec_player())) && h == z.boxes_key(g.box_list()) ^ z.player_key(c),
    ensures
        h == position_key(z, g),
{
    let sq = g.region(g.spec_player());
    let c = choose|c: Position| #[trigger] is_top_left(c, sq) && h == z.boxes_key(g.box_list()) ^ z.player_key(c);
    let c2 = choose|c: Position| is_top_left(c, sq);
    assert(is_top_left(c2, sq));
    assert(crate::bits::reading_le(c, c2));
    assert(crate::bits::reading_le(c2, c));
    assert(c == c2);
}

/// Games in the same state have the same position key.
proof fn lemma_position_key_same(z: Zobrist, a: Game, b: Game)
    requires
        a.wf(),
        b.wf(),
        a.same_state(&b),
    ensures
        position_key(z, a) == position_key(z, b),
{
    a.lemma_wf_core();
    b.lemma_wf_core();
    crate::game::lemma_same_state(&a, &b);
    assert(a.region(a.spec_player()) =~= b.region(b.spec_player()));
}

/// A queue grows itself.
proof fn lemma_grows_refl<T>(q: Seq<Seq<T>>)
    ensures
        grows(q, q),
{
}

/// Undoing a move from games in the same state gives the same boxes and
/// player.
proof fn lemma_unmade_same(forward: bool, a: &Game, a2: &Game, b: &Game, m: (int, int))
    requires
        a.wf_core(),
        a2.wf_core(),
        a.same_state(a2),
        unmade(forward, a, b, m),
    ensures
        unmade(forward, a2, b, m),
{
    crate::game::lemma_same_state(a, a2);
}

/// Where the player stands after move `m` (direction number, box index):
/// on the box's square after a push, one square beyond its new square after
/// a pull.
pub open spec fn child_player(forward: bool, g: &Game, m: (int, int)) -> Position {
    let q = g.neighbor(g.box_list()[m.1], dir_at(m.0))->0;
    if forward {
        g.box_list()[m.1]
    } else {
        g.neighbor(q, dir_at(m.0))->0
    }
}

/// The boxes after move `m`: its box one square on.
pub open spec fn child_boxes(g: &Game, m: (int, int)) -> Seq<Position> {
    g.box_list().update(m.1, g.neighbor(g.box_list()[m.1], dir_at(m.0))->0)
}

/// The moves a node's children come from: those of the corral that prunes,
/// else all of them.
pub open spec fn tried_moves<M>(rs: ReachableSet<M>, cr: CorralResult<M>) -> Set<(int, int)> {
    match cr {
        CorralResult::Prune(p) => p@,
        _ => rs.moves@,
    }
}

/// A move made from a game in the same state as `g` leads to the child
/// that `g` names.
proof fn lemma_moved_child(fwd: bool, a: &Game, c: &Game, g: &Game, m: (int, int))
    requires
        a.wf_core(),
        g.wf_core(),
        a.same_state(g),
        moved(fwd, a, c, m),
    ensures
        c.spec_player() == child_player(fwd, g, m),
        c.box_list() == child_boxes(g, m),
        c.same_board(g),
{
    crate::game::lemma_same_state(a, g);
    assert(a.neighbor(a.box_list()[m.1], dir_at(m.0)) == g.neighbor(g.box_list()[m.1], dir_at(m.0)));
    let q = g.neighbor(g.box_list()[m.1], dir_at(m.0))->0;
    assert(a.neighbor(q, dir_at(m.0)) == g.neighbor(q, dir_at(m.0)));
}

/// What a search direction needs: its moves, how to make and unmake them,
/// and its pruning rules.
pub trait SearchHelper {
    type Move: Move + Copy;

    /// Whether the moves are pushes (else pulls).
    spec fn forward(&self) -> bool;

    /// `r` holds the squares the player walks to in `game`, the boxes it
    /// reaches, and exactly the moves it can make.
    spec fn reach_ok(&self, game: Game, r: ReachableSet<Self::Move>) -> bool;

    /// A box on `pos` is lost, where this direction prunes dead squares.
    spec fn dead_at(&self, game: Game, pos: Position) -> bool;

    /// The boxes that moving box `b` freezes, beside those in `frozen`.
    spec fn frozen_new(&self, frozen: Set<int>, game: Game, b: int) -> Set<int>;

    /// `r` is what this direction's corral search may answer for `game` and
    /// its moves `reachable`.
    spec fn corral_ok(&self, game: Game, reachable: ReachableSet<Self::Move>, r: CorralResult<Self::Move>) -> bool;

    fn compute_moves(&self, game: &Game) -> (r: ReachableSet<Self::Move>)
        requires
            game.wf(),
            game.grounded(),
        ensures
            game.walk_region(game.spec_player(), r.squares@),
            forall|i: int| #[trigger] r.boxes@.contains(i) ==> 0 <= i < game.box_list().len(),
            forall|m: (int, int)| #[trigger] r.moves@.contains(m) ==> move_allowed(self.forward(), game, m),
            self.reach_ok(*game, r),
    ;

    fn compute_unmoves(&self, game: &Game) -> (r: Moves<Self::Move>)
        requires
            game.wf(),
            game.grounded(),
        ensures
            forall|m: (int, int)| #[trigger] r@.contains(m) ==> unmove_allowed(self.forward(), game, m),
    ;

    fn apply_move(&self, game: &mut Game, move_: &Self::Move)
        requires
            old(game).wf(),
            old(game).grounded(),
            move_allowed(self.forward(), old(game), move_key(*move_)),
        ensures
            final(game).wf(),
            final(game).grounded(),
            final(game).same_board(old(game)),
            final(game).box_list().len() == old(game).box_list().len(),
            moved(self.forward(), old(game), final(game), move_key(*move_)),
    ;

    fn apply_unmove(&self, game: &mut Game, move_: &Self::Move)
        requires
            old(game).wf(),
            old(game).grounded(),
            unmove_allowed(self.forward(), old(game), move_key(*move_)),
        ensures
            final(game).wf(),
            final(game).grounded(),
            final(game).same_board(old(game)),
            final(game).box_list().len() == old(game).box_list().len(),
            unmade(self.forward(), old(game), final(game), move_key(*move_)),
    ;

    fn is_dead_square(&self, game: &Game, pos: Position) -> (r: bool)
        requires
            on_grid(pos),
        ensures
            r == self.dead_at(*game, pos),
    ;

    fn search_corrals(&mut self, game: &mut Game, reachable: &ReachableSet<Self::Move>) -> (r: CorralResult<
        Self::Move,
    >)
        requires
            old(game).wf(),
            old(game).grounded(),
            old(game).walk_region(old(game).spec_player(), reachable.squares@),
            forall|i: int| #[trigger] reachable.boxes@.contains(i) ==> 0 <= i < old(game).box_list().len(),
            forall|m: (int, int)| #[trigger] reachable.moves@.contains(m) ==> move_allowed(self.forward(), old(game), m),
        ensures
            final(game).wf(),
            final(game).same_board(old(game)),
            final(game).spec_player() == old(game).spec_player(),
            final(game).box_list() == old(game).box_list(),
            r matches CorralResult::Prune(p) ==> forall|m: (int, int)| #[trigger] p@.contains(m) ==> move_allowed(
                old(self).forward(),
                old(game),
                m,
            ),
            final(self).forward() == old(self).forward(),
            old(self).corral_ok(*old(game), *reachable, r),
    ;

    fn compute_frozen_boxes(&self, game: &Game) -> (r: Bitvector)
        requires
            game.wf(),
        ensures
            forall|i: int| #[trigger] r@.contains(i) ==> 0 <= i < game.box_list().len(),
    ;

    fn compute_new_frozen_boxes(&self, frozen: &Bitvector, game: &Game, box_idx: Index) -> (r: Bitvector)
        requires
            game.wf(),
            box_idx.0 < game.box_list().len(),
        ensures
            forall|i: int| #[trigger] r@.contains(i) ==> 0 <= i < game.box_list().len(),
            r@ == self.frozen_new(frozen@, *game, box_idx.0 as int),
    ;

    fn new_heuristic<H: Heuristic>(&self, game: &Game, frozen_boxes: Bitvector) -> (r: H)
        requires
            game.wf(),
        ensures
            r.made_for(*game, self.forward()),
    ;

    fn to_push_by_pos(&self, game: &Game, move_: &Self::Move) -> (r: Option<PushByPos>)
        requires
            game.wf(),
        ensures
            r == push_by_pos_of(self.forward(), game, move_key(*move_)),
    ;
}

pub struct ForwardSearchHelper {
    corral_searcher: CorralSearcher,
    freeze_deadlocks: bool,
    dead_squares: bool,
    pi_corrals: bool,
}

pub struct ReverseSearchHelper {
    dead_squares: bool,
}

impl ForwardSearchHelper {
    /// Whether dead squares prune pushes.
    pub closed spec fn uses_dead_squares(&self) -> bool {
        self.dead_squares
    }

    /// Whether corrals prune pushes.
    pub closed spec fn uses_pi_corrals(&self) -> bool {
        self.pi_corrals
    }

    /// Whether frozen boxes are tracked.
    pub closed spec fn uses_freeze(&self) -> bool {
        self.freeze_deadlocks
    }

    /// The node limit of each search of a region.
    pub closed spec fn corral_max_nodes(&self) -> usize {
        self.corral_searcher.max_nodes()
    }
}

impl ReverseSearchHelper {
    /// Whether dead squares prune pulls.
    pub closed spec fn uses_dead_squares(&self) -> bool {
        self.dead_squares
    }
}

impl SearchHelper for ForwardSearchHelper {
    type Move = Push;

    open spec fn forward(&self) -> bool {
        true
    }

    open spec fn reach_ok(&self, game: Game, r: ReachableSet<Push>) -> bool {
        &&& game.walk_region(game.spec_player(), r.squares@)
        &&& forall|b: int| #[trigger] r.boxes@.contains(b) <==> 0 <= b < game.box_list().len() && exists|d: Direction|
            #[trigger] game.reaches_box(r.squares@, b, d)
        &&& forall|m: (int, int)| #[trigger] r.moves@.contains(m) <==> {
            &&& 0 <= m.0 < 4
            &&& 0 <= m.1 < game.box_list().len()
            &&& game.reaches_box(r.squares@, m.1, dir_at(m.0))
            &&& game.push_free(m.1, dir_at(m.0))
        }
    }

    open spec fn dead_at(&self, game: Game, pos: Position) -> bool {
        self.uses_dead_squares() && game.push_dead().contains(pos)
    }

    open spec fn frozen_new(&self, frozen: Set<int>, game: Game, b: int) -> Set<int> {
        if self.uses_freeze() {
            new_frozen(&game, frozen, b)
        } else {
            Set::empty()
        }
    }

    open spec fn corral_ok(&self, game: Game, reachable: ReachableSet<Push>, r: CorralResult<Push>) -> bool {
        if self.uses_pi_corrals() {
            corral_outcome(&game, &reachable, r, self.corral_max_nodes())
        } else {
            r is NoCorral
        }
    }

    fn compute_moves(&self, game: &Game) -> (r: ReachableSet<Push>) {
        game.compute_pushes()
    }

    fn compute_unmoves(&self, game: &Game) -> (r: Moves<Push>)
        ensures
            forall|m: (int, int)| #[trigger] r@.contains(m) <==> unmove_allowed(true, game, m),
    {
        let pulls = game.compute_pulls();
        proof {
            assert forall|m: (int, int)| #[trigger] crate::moves::reversed_moves(pulls.moves@).contains(m) implies unmove_allowed(self.forward(), game, m) by {
                let k = (dir_num(opposite(dir_at(m.0))), m.1);
                assert(pulls.moves@.contains(k));
                lemma_dir_num(opposite(dir_at(m.0)));
            }
            assert forall|m: (int, int)| #[trigger] unmove_allowed(true, game, m) implies crate::moves::reversed_moves(pulls.moves@).contains(m) by {
                let k = (dir_num(opposite(dir_at(m.0))), m.1);
                lemma_dir_num(opposite(dir_at(m.0)));
                let sq = choose|sq: Set<Position>| #[trigger]
                    game.walk_region(game.spec_player(), sq) && game.can_pull(sq, k.1, dir_at(k.0));
                game.lemma_region_is(game.spec_player(), sq);
                game.lemma_region_is(game.spec_player(), pulls.squares@);
                assert(pulls.moves@.contains(k));
            }
        }
        pulls.moves.to_pushes()
    }

    fn apply_move(&self, game: &mut Game, push: &Push)
        ensures
            pushed(old(game), final(game), push.box_index.0 as int, push.direction),
    {
        let ghost g0 = *game;
        proof {
            lemma_dir_num(push.direction);
        }
        game.push(*push);
        proof {
            crate::game::lemma_push_grounded(&g0, &*game, *push);
        }
    }

    fn apply_unmove(&self, game: &mut Game, push: &Push)
        ensures
            pulled(old(game), final(game), push.box_index.0 as int, opposite(push.direction)),
    {
        let ghost g0 = *game;
        let pull = push.to_pull();
        proof {
            lemma_dir_num(push.direction);
            lemma_dir_num(pull.direction);
            let sq = choose|sq: Set<Position>| #[trigger]
                g0.walk_region(g0.spec_player(), sq) && g0.can_pull(sq, pull.box_index.0 as int, pull.direction);
            crate::game::lemma_pull_grounded_pre(&g0, sq, pull);
        }
        game.pull(pull);
        proof {
            let sq = choose|sq: Set<Position>| #[trigger]
                g0.walk_region(g0.spec_player(), sq) && g0.can_pull(sq, pull.box_index.0 as int, pull.direction);
            crate::game::lemma_pull_grounded(&g0, sq, &*game, pull);
        }
    }

    fn is_dead_square(&self, game: &Game, pos: Position) -> (r: bool)
        ensures
            r == (self.uses_dead_squares() && game.push_dead().contains(pos)),
    {
        if self.dead_squares {
            game.is_push_dead_square(pos)
        } else {
            false
        }
    }

    fn search_corrals(&mut self, game: &mut Game, reachable: &ReachableSet<Push>) -> (r: CorralResult<Push>)
        ensures
            !old(self).uses_pi_corrals() ==> r is NoCorral && *final(game) == *old(game),
            old(self).uses_pi_corrals() ==> corral_outcome(old(game), reachable, r, old(self).corral_max_nodes()),
            final(self).corral_max_nodes() == old(self).corral_max_nodes(),
            final(self).uses_pi_corrals() == old(self).uses_pi_corrals(),
            final(self).uses_dead_squares() == old(self).uses_dead_squares(),
            final(self).uses_freeze() == old(self).uses_freeze(),
    {
        if self.pi_corrals {
            self.corral_searcher.search(game, reachable)
        } else {
            CorralResult::NoCorral
        }
    }

    fn compute_frozen_boxes(&self, game: &Game) -> (r: Bitvector)
        ensures
            r@ == (if self.uses_freeze() {
                frozen_after(game, game.box_list().len())
            } else {
                Set::empty()
            }),
    {
        if self.freeze_deadlocks {
            compute_frozen_boxes(game)
        } else {
            Bitvector::new()
        }
    }

    fn compute_new_frozen_boxes(&self, frozen: &Bitvector, game: &Game, box_idx: Index) -> (r: Bitvector)
        ensures
            r@ == (if self.uses_freeze() {
                new_frozen(game, frozen@, box_idx.0 as int)
            } else {
                Set::empty()
            }),
    {
        if self.freeze_deadlocks {
            compute_new_frozen_boxes(frozen, game, box_idx)
        } else {
            Bitvector::new()
        }
    }

    fn new_heuristic<H: Heuristic>(&self, game: &Game, _frozen_boxes: Bitvector) -> (r: H) {
        H::new_push(game)
    }

    fn to_push_by_pos(&self, game: &Game, push: &Push) -> (r: Option<PushByPos>)
        ensures
            r == (if (push.box_index.0 as int) < game.box_list().len() {
                Some(PushByPos { box_pos: game.box_list()[push.box_index.0 as int], direction: push.direction })
            } else {
                None
            }),
    {
        proof {
            lemma_dir_num(push.direction);
        }
        if push.box_index.0 as usize >= game.box_count() {
            return None;
        }
        Some(PushByPos { box_pos: game.box_position(push.box_index()), direction: push.direction() })
    }
}

impl SearchHelper for ReverseSearchHelper {
    type Move = Pull;

    open spec fn forward(&self) -> bool {
        false
    }

    open spec fn reach_ok(&self, game: Game, r: ReachableSet<Pull>) -> bool {
        &&& game.walk_region(game.spec_player(), r.squares@)
        &&& forall|b: int| #[trigger] r.boxes@.contains(b) <==> 0 <= b < game.box_list().len() && exists|d: Direction|
            #[trigger] game.reaches_box(r.squares@, b, d)
        &&& forall|m: (int, int)| #[trigger] r.moves@.contains(m) <==> {
            &&& 0 <= m.0 < 4
            &&& 0 <= m.1 < game.box_list().len()
            &&& game.can_pull(r.squares@, m.1, dir_at(m.0))
        }
    }

    open spec fn dead_at(&self, game: Game, pos: Position) -> bool {
        self.uses_dead_squares() && game.pull_dead().contains(pos)
    }

    open spec fn frozen_new(&self, frozen: Set<int>, game: Game, b: int) -> Set<int> {
        Set::empty()
    }

    open spec fn corral_ok(&self, game: Game, reachable: ReachableSet<Pull>, r: CorralResult<Pull>) -> bool {
        r is NoCorral
    }

    fn compute_moves(&self, game: &Game) -> (r: ReachableSet<Pull>) {
        let r = game.compute_pulls();
        proof {
            assert forall|m: (int, int)| #[trigger] r.moves@.contains(m) implies move_allowed(self.forward(), game, m) by {
                assert(game.walk_region(game.spec_player(), r.squares@) && game.can_pull(r.squares@, m.1, dir_at(m.0)));
            }
        }
        r
    }

    fn compute_unmoves(&self, game: &Game) -> (r: Moves<Pull>)
        ensures
            forall|m: (int, int)| #[trigger] r@.contains(m) <==> {
                &&& 0 <= m.0 < 4
                &&& reachable_push(game, (dir_num(opposite(dir_at(m.0))), m.1))
            },
    {
        let pushes = game.compute_pushes();
        proof {
            assert forall|m: (int, int)| #[trigger] crate::moves::reversed_moves(pushes.moves@).contains(m) implies unmove_allowed(self.forward(), game, m) by {
                let k = (dir_num(opposite(dir_at(m.0))), m.1);
                assert(pushes.moves@.contains(k));
                lemma_dir_num(opposite(dir_at(m.0)));
                assert(game.walk_region(game.spec_player(), pushes.squares@) && game.reaches_box(pushes.squares@, k.1, dir_at(k.0)));
            }
            assert forall|m: (int, int)| 0 <= m.0 < 4 && #[trigger] reachable_push(game, (dir_num(opposite(dir_at(m.0))), m.1)) implies crate::moves::reversed_moves(pushes.moves@).contains(m) by {
                let k = (dir_num(opposite(dir_at(m.0))), m.1);
                lemma_dir_num(opposite(dir_at(m.0)));
                let sq = choose|sq: Set<Position>| #[trigger]
                    game.walk_region(game.spec_player(), sq) && game.reaches_box(sq, k.1, dir_at(k.0));
                game.lemma_region_is(game.spec_player(), sq);
                game.lemma_region_is(game.spec_player(), pushes.squares@);
                assert(pushes.moves@.contains(k));
            }
        }
        pushes.moves.to_pulls()
    }

    fn apply_move(&self, game: &mut Game, pull: &Pull)
        ensures
            pulled(old(game), final(game), pull.box_index.0 as int, pull.direction),
    {
        let ghost g0 = *game;
        proof {
            lemma_dir_num(pull.direction);
            let sq = choose|sq: Set<Position>| #[trigger]
                g0.walk_region(g0.spec_player(), sq) && g0.can_pull(sq, pull.box_index.0 as int, pull.direction);
            crate::game::lemma_pull_grounded_pre(&g0, sq, *pull);
        }
        game.pull(*pull);
        proof {
            let sq = choose|sq: Set<Position>| #[trigger]
                g0.walk_region(g0.spec_player(), sq) && g0.can_pull(sq, pull.box_index.0 as int, pull.direction);
            crate::game::lemma_pull_grounded(&g0, sq, &*game, *pull);
        }
    }

    fn apply_unmove(&self, game: &mut Game, pull: &Pull)
        ensures
            pushed(old(game), final(game), pull.box_index.0 as int, opposite(pull.direction)),
    {
        let ghost g0 = *game;
        let push = pull.to_push();
        proof {
            lemma_dir_num(pull.direction);
            lemma_dir_num(push.direction);
        }
        game.push(push);
        proof {
            crate::game::lemma_push_grounded(&g0, &*game, push);
        }
    }

    fn is_dead_square(&self, game: &Game, pos: Position) -> (r: bool)
        ensures
            r == (self.uses_dead_squares() && game.pull_dead().contains(pos)),
    {
        if self.dead_squares {
            game.is_pull_dead_square(pos)
        } else {
            false
        }
    }

    fn search_corrals(&mut self, game: &mut Game, _reachable: &ReachableSet<Pull>) -> (r: CorralResult<Pull>)
        ensures
            r is NoCorral,
            *final(game) == *old(game),
            *final(self) == *old(self),
    {
        CorralResult::NoCorral
    }

    fn compute_frozen_boxes(&self, _game: &Game) -> (r: Bitvector)
        ensures
            r@ == Set::<int>::empty(),
    {
        Bitvector::new()
    }

    fn compute_new_frozen_boxes(&self, _frozen: &Bitvector, _game: &Game, _box_idx: Index) -> (r: Bitvector)
        ensures
            r@ == Set::<int>::empty(),
    {
        Bitvector::new()
    }

    fn new_heuristic<H: Heuristic>(&self, game: &Game, _frozen_boxes: Bitvector) -> (r: H) {
        H::new_pull(game)
    }

    fn to_push_by_pos(&self, game: &Game, pull: &Pull) -> (r: Option<PushByPos>)
        ensures
            r == (if (pull.box_index.0 as int) < game.box_list().len() && game.neighbor(
                game.box_list()[pull.box_index.0 as int],
                pull.direction,
            ) is Some {
                Some(
                    PushByPos {
                        box_pos: game.neighbor(game.box_list()[pull.box_index.0 as int], pull.direction)->0,
                        direction: opposite(pull.direction),
                    },
                )
            } else {
                None
            }),
    {
        proof {
            lemma_dir_num(pull.direction);
        }
        if pull.box_index.0 as usize >= game.box_count() {
            return None;
        }
        let new_box_pos = game.box_position(pull.box_index());
        let old_box_pos = match game.move_position(new_box_pos, pull.direction()) {
            Some(p) => p,
            None => {
                return None;
            },
        };
        Some(PushByPos { box_pos: old_box_pos, direction: pull.direction().reverse() })
    }
}

/// Moves that agree on the board, the player and the boxes allow the same
/// moves.
proof fn lemma_allowed_same(forward: bool, g1: &Game, g2: &Game, m: (int, int))
    requires
        g1.wf(),
        g2.wf(),
        g1.same_state(g2),
    ensures
        move_allowed(forward, g1, m) == move_allowed(forward, g2, m),
        unmove_allowed(forward, g1, m) == unmove_allowed(forward, g2, m),
{
    g1.lemma_wf_core();
    g2.lemma_wf_core();
    crate::game::lemma_same_state(g1, g2);
    let k = (dir_num(opposite(dir_at(m.0))), m.1);
    if pull_allowed(g1, m) {
        let sq = choose|sq: Set<Position>| #[trigger] g1.walk_region(g1.spec_player(), sq) && g1.can_pull(sq, m.1, dir_at(m.0));
        assert(g2.walk_region(g2.spec_player(), sq) && g2.can_pull(sq, m.1, dir_at(m.0)));
    }
    if pull_allowed(g2, m) {
        let sq = choose|sq: Set<Position>| #[trigger] g2.walk_region(g2.spec_player(), sq) && g2.can_pull(sq, m.1, dir_at(m.0));
        assert(g1.walk_region(g1.spec_player(), sq) && g1.can_pull(sq, m.1, dir_at(m.0)));
    }
    if pull_allowed(g1, k) {
        let sq = choose|sq: Set<Position>| #[trigger] g1.walk_region(g1.spec_player(), sq) && g1.can_pull(sq, k.1, dir_at(k.0));
        assert(g2.walk_region(g2.spec_player(), sq) && g2.can_pull(sq, k.1, dir_at(k.0)));
    }
    if pull_allowed(g2, k) {
        let sq = choose|sq: Set<Position>| #[trigger] g2.walk_region(g2.spec_player(), sq) && g2.can_pull(sq, k.1, dir_at(k.0));
        assert(g1.walk_region(g1.spec_player(), sq) && g1.can_pull(sq, k.1, dir_at(k.0)));
    }
}

/// An allowed move's box has a neighbour in the move's direction.
proof fn lemma_allowed_neighbor(forward: bool, g: &Game, m: (int, int))
    requires
        g.wf(),
        g.grounded(),
        move_allowed(forward, g, m),
    ensures
        0 <= m.0 < 4,
        0 <= m.1 < g.box_list().len(),
        g.neighbor(g.box_list()[m.1], dir_at(m.0)) is Some,
{
    g.lemma_wf_core();
    g.lemma_wf();
    if !forward {
        let sq = choose|sq: Set<Position>| #[trigger] g.walk_region(g.spec_player(), sq) && g.can_pull(sq, m.1, dir_at(m.0));
        assert((m.1 as u8) as int == m.1);
        crate::game::lemma_pull_grounded_pre(g, sq, Pull { box_index: Index(m.1 as u8), direction: dir_at(m.0) });
    }
}

/// A position waiting in the open list: its checkpoint and its frozen boxes.
pub struct Node {
    checkpoint: Checkpoint,
    frozen_boxes: Bitvector,
}

#[derive(Clone, Copy)]
pub struct TableEntry {
    parent_hash: u64,
    is_closed: bool,
}

/// The outcome of expanding one node.
pub enum ExpandNode {
    NotDone,
    Solved,
    Unsolvable,
}

/// A node's checkpoint puts the player on a free square of the board and the
/// boxes on squares of the board that are not walls.
pub open spec fn checkpoint_ok(board: &Game, cp: &Checkpoint) -> bool {
    let pl = cp.spec_player();
    let bl = cp.spec_boxes();
    &&& bl.len() == board.box_list().len()
    &&& pl.0 < board.spec_width()
    &&& pl.1 < board.spec_height()
    &&& board.spec_tile(pl) != Tile::Wall
    &&& !bl.contains(pl)
    &&& forall|i: int|
        0 <= i < bl.len() ==> {
            let b = #[trigger] bl[i];
            &&& b.0 < board.spec_width()
            &&& b.1 < board.spec_height()
            &&& board.spec_tile(b) != Tile::Wall
        }
}

/// A node's checkpoint is on the board, and its frozen boxes are boxes.
pub closed spec fn node_ok(board: &Game, node: Node) -> bool {
    &&& checkpoint_ok(board, &node.checkpoint)
    &&& forall|i: int| #[trigger] node.frozen_boxes@.contains(i) ==> 0 <= i < board.box_list().len()
}

/// One direction of the search: a best-first search over positions, with a
/// table of the positions seen and how they were reached.
pub struct Searcher<H, S> {
    game: Game,
    open_list: PriorityQueue<Node>,
    table: HashMap<u64, TableEntry>,
    zobrist: Rc<Zobrist>,
    heuristic: HashMap<u64, H>,
    helper: S,
    board: Ghost<Game>,
    expanded: Ghost<nat>,
}

impl<H: Heuristic, S: SearchHelper> Searcher<H, S> {
    /// The searcher's game is on the board it started from, and so is every
    /// node waiting in the open list.
    pub closed spec fn inv(&self) -> bool {
        &&& self.game.wf()
        &&& self.game.same_board(&self.board@)
        &&& self.game.box_list().len() == self.board@.box_list().len()
        &&& self.board@.wf()
        &&& self.board@.pieces_on_board()
        &&& self.open_list.wf()
        &&& self.open_list.queue().len() == 4096
        &&& forall|p: int, i: int|
            0 <= p < 4096 && 0 <= i < self.open_list.queue()[p].len() ==> node_ok(
                &self.board@,
                #[trigger] self.open_list.queue()[p][i],
            )
    }

    pub closed spec fn spec_game(&self) -> Game {
        self.game
    }

    pub closed spec fn spec_board(&self) -> Game {
        self.board@
    }

    pub closed spec fn is_forward(&self) -> bool {
        self.helper.forward()
    }

    /// No node waits in the open list.
    pub closed spec fn open_empty(&self) -> bool {
        crate::pqueue::all_empty(self.open_list.queue())
    }

    /// The hashes of the positions the search has seen.
    pub closed spec fn seen(&self) -> Set<u64> {
        self.table@.dom()
    }

    /// The keys the search hashes positions with.
    pub closed spec fn keys(&self) -> Zobrist {
        *self.zobrist
    }

    /// A checkpoint of the game, kept for the open list.
    proof fn lemma_checkpoint_ok(&self, cp: &Checkpoint)
        requires
            self.game.wf(),
            self.game.grounded(),
            self.game.same_board(&self.board@),
            self.game.box_list().len() == self.board@.box_list().len(),
            cp.spec_player() == self.game.spec_player(),
            cp.spec_boxes() == self.game.box_list(),
        ensures
            checkpoint_ok(&self.board@, cp),
    {
        self.game.lemma_wf_core();
        self.game.lemma_wf();
        let pl = cp.spec_player();
        assert(on_grid(pl));
        assert forall|i: int| 0 <= i < cp.spec_boxes().len() implies {
            let b = #[trigger] cp.spec_boxes()[i];
            &&& b.0 < self.board@.spec_width()
            &&& b.1 < self.board@.spec_height()
            &&& self.board@.spec_tile(b) != Tile::Wall
        } by {
            assert(on_grid(cp.spec_boxes()[i]));
        }
    }

    /// The game after a restore to a checkpoint that is on the board.
    proof fn lemma_restored(&self, cp: &Checkpoint)
        requires
            self.game.wf(),
            self.game.same_board(&self.board@),
            self.game.spec_player() == cp.spec_player(),
            self.game.box_list() == cp.spec_boxes(),
            self.board@.wf(),
            self.board@.pieces_on_board(),
            checkpoint_ok(&self.board@, cp),
        ensures
            self.game.grounded(),
            self.game.box_list().len() == self.board@.box_list().len(),
    {
        self.board@.lemma_wf_core();
        self.board@.lemma_wf();
        let pl = cp.spec_player();
        assert(on_grid(pl));
        assert forall|i: int| 0 <= i < self.game.box_list().len() implies {
            let b = #[trigger] self.game.box_list()[i];
            &&& b.0 < self.game.spec_width()
            &&& b.1 < self.game.spec_height()
            &&& self.game.spec_tile(b) != Tile::Wall
        } by {
            let b = cp.spec_boxes()[i];
            assert(b.0 < self.board@.spec_width());
            assert(on_grid(b));
        }
        assert forall|i: int| 0 <= i < self.game.goal_list().len() implies {
            let g = #[trigger] self.game.goal_list()[i];
            &&& g.0 < self.game.spec_width()
            &&& g.1 < self.game.spec_height()
        } by {
            assert(self.game.goal_list()[i] == self.board@.goal_list()[i]);
        }
    }

    /// Starts a search on a game from each of the given player squares.
    fn new(game: &Game, zobrist: Rc<Zobrist>, initial_player_positions: &[Position], helper: S) -> (r: Self)
        requires
            game.wf(),
            game.pieces_on_board(),
            forall|i: int| 0 <= i < initial_player_positions@.len() ==> #[trigger] game.free_square(initial_player_positions@[i]),
        ensures
            r.inv(),
            r.spec_board().same_state(game),
            r.is_forward() == helper.forward(),
            r.keys() == *zobrist,
            forall|h: u64| #[trigger]
                r.seen().contains(h) ==> r.parent_of(h) == Some(0u64) && exists|j: int|
                    0 <= j < initial_player_positions@.len() && h == position_key(
                        r.keys(),
                        r.spec_board().with_player(initial_player_positions@[j]),
                    ),
            r.open_from(initial_player_positions@),
            forall|j: int|
                0 <= j < initial_player_positions@.len() ==> (r.parent_of(
                    position_key(r.keys(), r.spec_board().with_player(#[trigger] initial_player_positions@[j])),
                ) == Some(0u64) && r.has_open_node(initial_player_positions@[j])) || exists|h: H|
                    h.gives(r.spec_board().with_player(initial_player_positions@[j]), Cost(u16::MAX)),
            r.started_from(initial_player_positions@),
            r.expanded() == 0,
    {
        proof {
            game.lemma_wf_core();
            game.lemma_wf();
        }
        let mut open_list: PriorityQueue<Node> = PriorityQueue::new();
        let mut table: HashMap<u64, TableEntry> = HashMap::new();
        let mut heuristic: HashMap<u64, H> = HashMap::new();
        let ghost orig = *game;
        let mut game = game.clone();
        let ghost board = game;
        let ghost zk = zobrist_of(&zobrist);
        proof {
            board.lemma_with_player(board.spec_player(), board.spec_player());
        }
        proof {
            assert forall|j: int| 0 <= j < initial_player_positions@.len() implies #[trigger] board.free_square(initial_player_positions@[j]) by {
                let q = initial_player_positions@[j];
                assert(orig.free_square(q));
                assert(on_grid(q));
            }
        }
        let mut i: usize = 0;
        while i < initial_player_positions.len()
            invariant
                game.wf(),
                game.same_board(&board),
                game.box_list() == board.box_list(),
                board.wf(),
                board.pieces_on_board(),
                forall|j: int| 0 <= j < initial_player_positions@.len() ==> #[trigger] board.free_square(initial_player_positions@[j]),
                i <= initial_player_positions@.len(),
                open_list.wf(),
                open_list.queue().len() == 4096,
                forall|p: int, j: int|
                    0 <= p < 4096 && 0 <= j < open_list.queue()[p].len() ==> node_ok(
                        &board,
                        #[trigger] open_list.queue()[p][j],
                    ),
                game == board.with_player(game.spec_player()),
                zk == zobrist_of(&zobrist),
                forall|h: u64| #[trigger]
                    table@.contains_key(h) ==> table@[h].parent_hash == 0 && exists|j: int|
                        0 <= j < i && h == position_key(zk, board.with_player(initial_player_positions@[j])),
                forall|p: int, k: int|
                    0 <= p < 4096 && 0 <= k < open_list.queue()[p].len() ==> exists|j: int|
                        0 <= j < i && (#[trigger] open_list.queue()[p][k]).checkpoint.spec_player()
                            == initial_player_positions@[j] && open_list.queue()[p][k].checkpoint.spec_boxes()
                            == board.box_list(),
                forall|j: int|
                    0 <= j < i ==> (table@.contains_key(
                        position_key(zk, board.with_player(#[trigger] initial_player_positions@[j])),
                    ) && open_has(open_list.queue(), initial_player_positions@[j], board.box_list())) || exists|h: H|
                        h.gives(board.with_player(initial_player_positions@[j]), Cost(u16::MAX)),
            decreases initial_player_positions@.len() - i,
        {
            let pos = initial_player_positions[i];
            proof {
                board.lemma_wf_core();
                board.lemma_wf();
                assert(board.free_square(pos));
                assert(on_grid(pos));
            }
            let ghost gprev = game;
            game.set_player(pos);
            proof {
                board.lemma_with_player(gprev.spec_player(), pos);
                board.lemma_wf_core();
                assert(game.free_square(pos)) by {
                    assert(on_grid(pos));
                    assert(game.spec_tile(pos) == board.spec_tile(pos));
                }
                assert forall|k: int| 0 <= k < game.goal_list().len() implies {
                    let g = #[trigger] game.goal_list()[k];
                    &&& g.0 < game.spec_width()
                    &&& g.1 < game.spec_height()
                } by {
                    assert(game.goal_list()[k] == board.goal_list()[k]);
                }
                assert forall|k: int| 0 <= k < game.box_list().len() implies {
                    let b = #[trigger] game.box_list()[k];
                    &&& b.0 < game.spec_width()
                    &&& b.1 < game.spec_height()
                    &&& game.spec_tile(b) != Tile::Wall
                } by {
                    assert(on_grid(board.box_list()[k]));
                }
            }
            let frozen_boxes = helper.compute_frozen_boxes(&game);
            let frozen_boxes_hash = zobrist.compute_boxes_hash_subset(&game, frozen_boxes);
            let (cost, Ghost(gh)) = match heuristic.get(&frozen_boxes_hash) {
                Some(h) => {
                    let c = h.compute(&game);
                    (c, Ghost(*h))
                },
                None => {
                    let h: H = helper.new_heuristic(&game, frozen_boxes);
                    let c = h.compute(&game);
                    let ghost hg = h;
                    heuristic.insert(frozen_boxes_hash, h);
                    (c, Ghost(hg))
                },
            };
            let ghost t0 = table@;
            let ghost q00 = open_list.queue();
            proof {
                assert(game == board.with_player(initial_player_positions@[i as int]));
            }
            if cost.0 != u16::MAX {
                let checkpoint = game.checkpoint();
                let ghost q0 = open_list.queue();
                proof {
                    game.lemma_wf_core();
                    game.lemma_wf();
                    assert(on_grid(pos));
                    assert forall|k: int| 0 <= k < checkpoint.spec_boxes().len() implies {
                        let b = #[trigger] checkpoint.spec_boxes()[k];
                        &&& b.0 < board.spec_width()
                        &&& b.1 < board.spec_height()
                        &&& board.spec_tile(b) != Tile::Wall
                    } by {
                        assert(on_grid(checkpoint.spec_boxes()[k]));
                    }
                    assert(checkpoint_ok(&board, &checkpoint));
                }
                let prio = priority_of(cost);
                let node = Node { checkpoint, frozen_boxes };
                let ghost gn = node;
                open_list.push(prio, node);
                proof {
                    assert forall|p: int, j: int|
                        0 <= p < 4096 && 0 <= j < open_list.queue()[p].len() implies node_ok(
                            &board,
                            #[trigger] open_list.queue()[p][j],
                        ) by {
                        if p == prio as int {
                            assert(open_list.queue()[p] == q0[p].push(gn));
                            if j < q0[p].len() {
                                assert(open_list.queue()[p][j] == q0[p][j]);
                            } else {
                                assert(open_list.queue()[p][j] == gn);
                            }
                        } else {
                            assert(open_list.queue()[p] == q0[p]);
                        }
                    }
                }
                let hash = zobrist.compute_hash(&game);
                proof {
                    lemma_position_key(zk, game, hash);
                }
                table.insert(hash, TableEntry { parent_hash: 0, is_closed: false });
                proof {
                    let pj = initial_player_positions@[i as int];
                    assert(open_list.queue()[prio as int] == q0[prio as int].push(gn));
                    assert(open_list.queue()[prio as int][q0[prio as int].len() as int] == gn);
                    assert(open_has(open_list.queue(), pj, board.box_list()));
                    assert forall|j: int| 0 <= j < i implies open_has(open_list.queue(), #[trigger] initial_player_positions@[j], board.box_list())
                        || !open_has(q0, initial_player_positions@[j], board.box_list()) by {
                        if open_has(q0, initial_player_positions@[j], board.box_list()) {
                            let (p, k) = choose|p: int, k: int|
                                0 <= p < 4096 && 0 <= k < q0[p].len() && (#[trigger] q0[p][k]).checkpoint.spec_player()
                                    == initial_player_positions@[j] && q0[p][k].checkpoint.spec_boxes() == board.box_list();
                            if p == prio as int {
                                assert(open_list.queue()[p][k] == q0[p][k]);
                            } else {
                                assert(open_list.queue()[p] == q0[p]);
                            }
                        }
                    }
                    assert forall|p: int, k: int|
                        0 <= p < 4096 && 0 <= k < open_list.queue()[p].len() implies exists|j: int|
                            0 <= j < i + 1 && (#[trigger] open_list.queue()[p][k]).checkpoint.spec_player()
                                == initial_player_positions@[j] && open_list.queue()[p][k].checkpoint.spec_boxes()
                                == board.box_list() by {
                        if p == prio as int && k == q0[p].len() {
                        } else if p == prio as int {
                            assert(open_list.queue()[p][k] == q0[p][k]);
                        } else {
                            assert(open_list.queue()[p] == q0[p]);
                        }
                    }
                }
            }
            proof {
                assert(gh.gives(game, cost));
                let ii = i as int;
                assert forall|j: int| 0 <= j < ii + 1 implies (table@.contains_key(
                    position_key(zk, board.with_player(#[trigger] initial_player_positions@[j])),
                ) && open_has(open_list.queue(), initial_player_positions@[j], board.box_list())) || exists|h: H|
                    h.gives(board.with_player(initial_player_positions@[j]), Cost(u16::MAX)) by {
                    if j == ii {
                        if cost.0 == u16::MAX {
                            assert(gh.gives(board.with_player(initial_player_positions@[j]), Cost(u16::MAX)));
                        }
                    } else {
                        let kj = position_key(zk, board.with_player(initial_player_positions@[j]));
                        if t0.contains_key(kj) && open_has(q00, initial_player_positions@[j], board.box_list()) {
                            assert(table@.contains_key(kj));
                        }
                    }
                }
            }
            i = i + 1;
        }
        let r = Self { game, open_list, table, zobrist, heuristic, helper, board: Ghost(board), expanded: Ghost(0nat) };
        proof {
            assert forall|p: int, k: int|
                0 <= p < r.open_list.queue().len() && 0 <= k < r.open_list.queue()[p].len() implies node_from(
                    #[trigger] r.open_list.queue()[p][k],
                    initial_player_positions@,
                    r.board@.box_list(),
                ) by {
                let nd = r.open_list.queue()[p][k];
                assert(open_list.queue()[p][k] == nd);
                let j = choose|j: int|
                    0 <= j < i && (#[trigger] open_list.queue()[p][k]).checkpoint.spec_player()
                        == initial_player_positions@[j] && open_list.queue()[p][k].checkpoint.spec_boxes()
                        == board.box_list();
                assert(0 <= j < initial_player_positions@.len() && nd.checkpoint.spec_player() == initial_player_positions@[j]);
            }
        }
        r
    }
}

impl<H: Heuristic, S: SearchHelper> Searcher<H, S> {
    /// The heuristic's estimate for the game with some boxes frozen, from the
    /// heuristic kept for that set of frozen boxes (made when first needed).
    fn estimate(&mut self, frozen: Bitvector) -> (r: Cost)
        requires
            old(self).game.wf(),
            forall|i: int| #[trigger] frozen@.contains(i) ==> 0 <= i < old(self).game.box_list().len(),
        ensures
            final(self).game == old(self).game,
            final(self).open_list == old(self).open_list,
            final(self).table == old(self).table,
            final(self).board == old(self).board,
            final(self).helper == old(self).helper,
            final(self).zobrist == old(self).zobrist,
            final(self).expanded == old(self).expanded,
            ({
                let key = subset_key(&*old(self).zobrist, old(self).game.box_list(), frozen@, 64);
                if old(self).heuristic@.contains_key(key) {
                    &&& final(self).heuristic@ == old(self).heuristic@
                    &&& old(self).heuristic@[key].gives(old(self).game, r)
                } else {
                    exists|h: H|
                        #![trigger h.made_for(old(self).game, old(self).helper.forward())]
                        h.made_for(old(self).game, old(self).helper.forward()) && h.gives(old(self).game, r)
                            && final(self).heuristic@ == old(self).heuristic@.insert(key, h)
                }
            }),
    {
        broadcast use vstd::std_specs::hash::group_hash_axioms;

        let frozen_hash = self.zobrist.compute_boxes_hash_subset(&self.game, frozen);
        match self.heuristic.get(&frozen_hash) {
            Some(h) => h.compute(&self.game),
            None => {
                let h: H = self.helper.new_heuristic(&self.game, frozen);
                let c = h.compute(&self.game);
                self.heuristic.insert(frozen_hash, h);
                c
            },
        }
    }

    /// Expands the best node of the open list: closes it, reports whether the
    /// other direction has seen its position, and opens its children.
    fn expand_node<H2: Heuristic, S2: SearchHelper>(&mut self, other_searcher: &Searcher<H2, S2>) -> (r: ExpandNode)
        requires
            old(self).inv(),
        ensures
            final(self).inv(),
            final(self).spec_board() == old(self).spec_board(),
            final(self).is_forward() == old(self).is_forward(),
            r is Solved ==> final(self).spec_game().grounded(),
            r is Unsolvable <==> old(self).open_empty(),
            r is Unsolvable ==> final(self).open_empty(),
            final(self).expanded() == old(self).expanded() + if r is Unsolvable {
                0nat
            } else {
                1nat
            },
            final(self).keys() == old(self).keys(),
            final(self).table_keeps(old(self)),
            !old(self).open_empty() ==> exists|p: int| #[trigger]
                crate::pqueue::min_priority(old(self).open_list.queue(), p) && final(self).expanded_from(old(self), p)
                    && (r is Solved <==> final(self).meets(old(self), p, other_searcher))
                    && (r is NotDone ==> final(self).children_opened(old(self), p)),
            r is Solved ==> exists|c: Position|
                #[trigger] crate::game::is_top_left(c, final(self).spec_game().region(final(self).spec_game().spec_player()))
                    && other_searcher.seen().contains(
                    final(self).keys().boxes_key(final(self).spec_game().box_list()) ^ final(self).keys().player_key(c),
                ),
    {
        let ghost q0 = self.open_list.queue();
        let node = match self.open_list.pop_min() {
            Some(n) => n,
            None => {
                return ExpandNode::Unsolvable;
            },
        };
        proof {
            self.expanded@ = self.expanded@ + 1;
        }
        proof {
            let p = choose|p: int| #[trigger] crate::pqueue::min_priority(q0, p) && node == q0[p][0]
                && self.open_list.queue() == q0.update(p, q0[p].drop_first());
            assert(node_ok(&self.board@, q0[p][0]));
            assert forall|pp: int, i: int|
                0 <= pp < 4096 && 0 <= i < self.open_list.queue()[pp].len() implies node_ok(
                    &self.board@,
                    #[trigger] self.open_list.queue()[pp][i],
                ) by {
                if pp == p {
                    assert(self.open_list.queue()[pp][i] == q0[pp][i + 1]);
                } else {
                    assert(self.open_list.queue()[pp] == q0[pp]);
                }
            }
        }
        let ghost pw = choose|p: int| #[trigger] crate::pqueue::min_priority(q0, p) && node == q0[p][0]
            && self.open_list.queue() == q0.update(p, q0[p].drop_first());
        let ghost q1 = self.open_list.queue();
        let ghost pk = raw_key(self.keys(), node.checkpoint.spec_player(), node.checkpoint.spec_boxes());
        self.game.restore(&node.checkpoint);
        proof {
            self.lemma_restored(&node.checkpoint);
            lemma_grows_refl(q1);
            assert(q1[pw] =~= q0[pw].drop_first());
        }
        let reachable = self.helper.compute_moves(&self.game);
        let boxes_hash = self.zobrist.compute_boxes_hash(&self.game);
        proof {
            self.game.lemma_wf_core();
            self.game.lemma_wf();
        }
        let player_hash = self.zobrist.player_hash(self.game.player());
        let uncanonical_hash = boxes_hash ^ player_hash;
        proof {
            assert(uncanonical_hash == pk);
        }
        let entry = match self.table.get(&uncanonical_hash) {
            Some(e) => *e,
            None => {
                proof {
                    assert(self.expanded_from(old(self), pw));
                    assert(!self.opens(old(self), pw));
                }
                return ExpandNode::NotDone;
            },
        };
        if entry.is_closed {
            proof {
                assert(self.expanded_from(old(self), pw));
                assert(!self.opens(old(self), pw));
            }
            return ExpandNode::NotDone;
        }
        self.table.insert(uncanonical_hash, TableEntry { parent_hash: entry.parent_hash, is_closed: true });
        proof {
            assert(self.table_keeps(old(self)));
        }
        let parent_hash = entry.parent_hash;
        proof {
            assert(reachable.squares@.contains(self.game.spec_player()));
            reachable.squares.lemma_on_grid();
        }
        let canonical_player_pos = reachable.squares.top_left().unwrap();
        let canonical_player_hash = self.zobrist.player_hash(canonical_player_pos);
        let canonical_hash = boxes_hash ^ canonical_player_hash;
        proof {
            self.game.lemma_region_is(self.game.spec_player(), reachable.squares@);
            assert(crate::game::is_top_left(canonical_player_pos, self.game.region(self.game.spec_player())));
            assert(canonical_hash == self.keys().boxes_key(self.game.box_list()) ^ self.keys().player_key(
                canonical_player_pos,
            ));
            lemma_position_key(self.keys(), self.game, canonical_hash);
        }
        if canonical_hash != uncanonical_hash {
            match self.table.get(&canonical_hash) {
                Some(e) => {
                    if e.is_closed {
                        proof {
                            assert(old(self).table@.contains_key(canonical_hash));
                            assert(old(self).table@[canonical_hash].is_closed);
                            assert(!self.meets(old(self), pw, other_searcher));
                            assert(!self.opens(old(self), pw));
                            assert(self.expanded_from(old(self), pw));
                        }
                        return ExpandNode::NotDone;
                    }
                    let ph = e.parent_hash;
                    self.table.insert(canonical_hash, TableEntry { parent_hash: ph, is_closed: true });
                },
                None => {
                    self.table.insert(canonical_hash, TableEntry { parent_hash, is_closed: true });
                },
            }
        }
        proof {
            assert(self.table_keeps(old(self)));
            assert(old(self).table@.contains_key(pk) ==> self.table@[pk].is_closed);
            self.game.lemma_region_is(self.game.spec_player(), reachable.squares@);
            assert(crate::game::is_top_left(canonical_player_pos, self.game.region(self.game.spec_player())));
            assert(canonical_hash == self.keys().boxes_key(self.game.box_list()) ^ self.keys().player_key(
                canonical_player_pos,
            ));
            lemma_position_key(self.keys(), self.game, canonical_hash);
        }
        let ghost gr = self.game;
        if other_searcher.table.contains_key(&canonical_hash) {
            proof {
                self.game.lemma_region_is(self.game.spec_player(), reachable.squares@);
                assert(crate::game::is_top_left(
                    canonical_player_pos,
                    self.game.region(self.game.spec_player()),
                ));
                assert(other_searcher.seen().contains(canonical_hash));
                assert(boxes_hash == self.keys().boxes_key(self.game.box_list()));
                assert(canonical_player_hash == self.keys().player_key(canonical_player_pos));
                assert(canonical_hash == self.keys().boxes_key(self.game.box_list()) ^ self.keys().player_key(
                    canonical_player_pos,
                ));
                assert(crate::game::is_top_left(
                    canonical_player_pos,
                    self.spec_game().region(self.spec_game().spec_player()),
                ) && other_searcher.seen().contains(
                    self.keys().boxes_key(self.spec_game().box_list()) ^ self.keys().player_key(canonical_player_pos),
                ));
            }
            proof {
                assert(self.expanded_from(old(self), pw));
            }
            return ExpandNode::Solved;
        }
        let ghost g0 = self.game;
        let ghost fwd = self.helper.forward();
        let ghost rsg = reachable;
        proof {
            assert(old(self).helper.reach_ok(g0, rsg));
        }
        let cres = self.helper.search_corrals(&mut self.game, &reachable);
        let ghost crg = cres;
        let ghost hc = self.helper;
        proof {
            assert(old(self).helper.corral_ok(g0, rsg, crg));
        }
        let moves = match cres {
            CorralResult::Prune(pruned_moves) => pruned_moves,
            CorralResult::NoCorral => reachable.moves,
            CorralResult::Deadlocked => {
                proof {
                    lemma_position_key_same(self.keys(), self.game, g0);
                    assert(!other_searcher.seen().contains(canonical_hash));
                    assert(!self.meets(old(self), pw, other_searcher));
                    assert(self.expanded_from(old(self), pw));
                    assert(old(self).helper.corral_ok(g0, rsg, crg));
                    assert(self.children_opened(old(self), pw));
                }
                return ExpandNode::NotDone;
            },
        };
        proof {
            assert(tried_moves(rsg, crg) == moves@);
        }
        proof {
            assert(self.game.same_state(&g0));
            self.game.lemma_wf_core();
            g0.lemma_wf_core();
            crate::game::lemma_same_state(&self.game, &g0);
            assert(self.game.grounded());
        }
        let checkpoint = self.game.checkpoint();
        let mut it = moves.iter();
        let ghost mut rest: Set<(int, int)> = it@;
        loop
            invariant_except_break
                it.inv(),
                forall|m: (int, int)| #[trigger] it@.contains(m) ==> moves@.contains(m),
                rest == it@,
            invariant
                self.helper == hc,
                forall|m: (int, int)| #[trigger] moves@.contains(m) && !rest.contains(m) ==> self.child_done(node, g0, m),
                self.new_nodes_children(old(self), pw, g0, moves@),
                self.game.wf(),
                self.game.grounded(),
                self.game.same_state(&g0),
                self.game.same_board(&self.board@),
                self.game.box_list().len() == self.board@.box_list().len(),
                self.board@.wf(),
                self.board@.pieces_on_board(),
                self.open_list.wf(),
                self.open_list.queue().len() == 4096,
                forall|p: int, i: int|
                    0 <= p < 4096 && 0 <= i < self.open_list.queue()[p].len() ==> node_ok(
                        &self.board@,
                        #[trigger] self.open_list.queue()[p][i],
                    ),
                g0.wf(),
                g0.grounded(),
                fwd == self.helper.forward(),
                self.board == old(self).board,
                self.helper.forward() == old(self).helper.forward(),
                checkpoint.spec_player() == g0.spec_player(),
                checkpoint.spec_boxes() == g0.box_list(),
                node_ok(&self.board@, node),
                forall|m: (int, int)| #[trigger] moves@.contains(m) ==> move_allowed(fwd, &g0, m),
                self.zobrist == old(self).zobrist,
                self.expanded@ == old(self).expanded@ + 1,
                self.table_keeps(old(self)),
                old(self).table@.contains_key(pk) ==> self.table@[pk].is_closed,
                pk == raw_key(old(self).keys(), node.checkpoint.spec_player(), node.checkpoint.spec_boxes()),
                crate::pqueue::min_priority(q0, pw),
                q0 == old(self).open_list.queue(),
                node == q0[pw][0],
                q1 == q0.update(pw, q0[pw].drop_first()),
                grows(q1, self.open_list.queue()),
                q1.len() == 4096,
                g0.spec_player() == node.checkpoint.spec_player(),
                g0.box_list() == node.checkpoint.spec_boxes(),
                canonical_hash == position_key(self.keys(), g0),
                boxes_hash == self.keys().boxes_key(g0.box_list()),
                forall|pp: int, k: int|
                    0 <= pp < q1.len() && q1[pp].len() <= k < self.open_list.queue()[pp].len() ==> {
                        let nd = #[trigger] self.open_list.queue()[pp][k];
                        let ck = raw_key(self.keys(), nd.checkpoint.spec_player(), nd.checkpoint.spec_boxes());
                        &&& !old(self).table@.contains_key(ck)
                        &&& self.table@.contains_key(ck)
                        &&& self.table@[ck].parent_hash == canonical_hash
                        &&& !self.table@[ck].is_closed
                    },
            ensures
                rest == Set::<(int, int)>::empty(),
            decreases it@.len(),
        {
            proof {
                moves.lemma_bounded();
                vstd::set_lib::lemma_len_subset(it@, moves@);
            }
            let ghost before = it@;
            let next = it.next();
            let move_ = match next {
                Some(m) => m,
                None => {
                    proof {
                        assert(before =~= Set::<(int, int)>::empty());
                        rest = Set::empty();
                    }
                    break;
                },
            };
            let ghost mk = move_key(move_);
            let ghost rest0 = rest;
            proof {
                rest = it@;
                assert(rest =~= rest0.remove(mk));
            }
            let box_index = move_.box_index();
            let direction = move_.direction();
            proof {
                assert(moves@.contains(move_key(move_)));
                lemma_allowed_same(fwd, &self.game, &g0, move_key(move_));
                lemma_allowed_neighbor(fwd, &self.game, move_key(move_));
                lemma_dir_num(direction);
                self.game.lemma_wf_core();
                self.game.lemma_wf();
                g0.lemma_wf_core();
                crate::game::lemma_same_state(&self.game, &g0);
            }
            if node.frozen_boxes.contains(box_index) {
                proof {
                    assert(self.child_done(node, g0, mk));
                }
                continue;
            }
            let old_box_pos = self.game.box_position(box_index);
            let new_box_pos = self.game.move_position(old_box_pos, direction).unwrap();
            proof {
                self.game.lemma_neighbor_on_grid(old_box_pos, direction);
                assert(new_box_pos == g0.neighbor(g0.box_list()[mk.1], dir_at(mk.0))->0);
            }
            if self.helper.is_dead_square(&self.game, new_box_pos) {
                proof {
                    assert(self.helper.dead_at(self.game, new_box_pos) && self.game.wf() && self.game.same_state(&g0));
                    assert(self.child_done(node, g0, mk));
                }
                continue;
            }
            let ghost gb = self.game;
            self.helper.apply_move(&mut self.game, &move_);
            let ghost gc = self.game;
            proof {
                gb.lemma_wf_core();
                g0.lemma_wf_core();
                lemma_moved_child(fwd, &gb, &gc, &g0, mk);
            }
            let new_frozen = self.helper.compute_new_frozen_boxes(&node.frozen_boxes, &self.game, box_index);
            let child_frozen_boxes = node.frozen_boxes.union(&new_frozen);
            if self.game.unsolved_boxes().contains_any(&child_frozen_boxes) {
                proof {
                    assert(self.helper.frozen_new(node.frozen_boxes@, gc, mk.1) == new_frozen@);
                    assert(self.child_done(node, g0, mk));
                }
                self.game.restore(&checkpoint);
                continue;
            }
            proof {
                self.game.lemma_wf_core();
                self.game.lemma_wf();
            }
            let child_boxes_hash = boxes_hash ^ self.zobrist.box_hash(old_box_pos.0, old_box_pos.1)
                ^ self.zobrist.box_hash(new_box_pos.0, new_box_pos.1);
            let child_hash = child_boxes_hash ^ self.zobrist.player_hash(self.game.player());
            proof {
                let l = g0.box_list();
                let bi = box_index.0 as int;
                assert(self.game.box_list() == l.update(bi, new_box_pos));
                crate::zobrist::lemma_move_box_hash(self.keys().box_keys(), l, bi, new_box_pos);
                assert(child_hash == raw_key(self.keys(), self.game.spec_player(), self.game.box_list()));
                assert(child_hash == raw_key(self.keys(), child_player(fwd, &g0, mk), child_boxes(&g0, mk)));
            }
            if self.table.contains_key(&child_hash) {
                proof {
                    assert(self.child_done(node, g0, mk));
                }
                self.game.restore(&checkpoint);
                continue;
            }
            let ghost tb = self.table@;
            self.table.insert(child_hash, TableEntry { parent_hash: canonical_hash, is_closed: false });
            proof {
                assert(self.table_keeps(old(self)));
            }
            let child_cost = self.estimate(child_frozen_boxes);
            if child_cost.0 == u16::MAX {
                self.game.restore(&checkpoint);
                continue;
            }
            let child_checkpoint = self.game.checkpoint();
            proof {
                self.lemma_checkpoint_ok(&child_checkpoint);
            }
            let ghost qa = self.open_list.queue();
            let prio = priority_of(child_cost);
            let child = Node { checkpoint: child_checkpoint, frozen_boxes: child_frozen_boxes };
            let ghost gn = child;
            self.open_list.push(prio, child);
            proof {
                assert(node_ok(&self.board@, gn));
                assert forall|p: int, j: int|
                    0 <= p < 4096 && 0 <= j < self.open_list.queue()[p].len() implies node_ok(
                        &self.board@,
                        #[trigger] self.open_list.queue()[p][j],
                    ) by {
                    if p == prio as int {
                        assert(self.open_list.queue()[p] == qa[p].push(gn));
                        if j < qa[p].len() {
                            assert(self.open_list.queue()[p][j] == qa[p][j]);
                        } else {
                            assert(self.open_list.queue()[p][j] == gn);
                        }
                    } else {
                        assert(self.open_list.queue()[p] == qa[p]);
                    }
                }
                let ghost qn = self.open_list.queue();
                assert(qn.len() == qa.len());
                assert forall|p: int| 0 <= p < q1.len() implies q1[p].len() <= #[trigger] qn[p].len() by {
                    if p == prio as int {
                        assert(qn[p] == qa[p].push(gn));
                    } else {
                        assert(qn[p] == qa[p]);
                    }
                }
                assert forall|p: int, k: int| 0 <= p < q1.len() && 0 <= k < q1[p].len() implies #[trigger] qn[p][k]
                    == q1[p][k] by {
                    assert(qa[p][k] == q1[p][k]);
                    if p == prio as int {
                        assert(qn[p] == qa[p].push(gn));
                    } else {
                        assert(qn[p] == qa[p]);
                    }
                }
                assert(grows(q1, qn));
                assert forall|pp: int, k: int|
                    0 <= pp < q1.len() && q1[pp].len() <= k < self.open_list.queue()[pp].len() implies {
                        let nd = #[trigger] self.open_list.queue()[pp][k];
                        let ck = raw_key(self.keys(), nd.checkpoint.spec_player(), nd.checkpoint.spec_boxes());
                        &&& !old(self).table@.contains_key(ck)
                        &&& self.table@.contains_key(ck)
                        &&& self.table@[ck].parent_hash == canonical_hash
                        &&& !self.table@[ck].is_closed
                    } by {
                    if pp == prio as int && k == qa[pp].len() {
                        assert(self.open_list.queue()[pp][k] == gn);
                    } else if pp == prio as int {
                        assert(self.open_list.queue()[pp][k] == qa[pp][k]);
                    } else {
                        assert(self.open_list.queue()[pp] == qa[pp]);
                    }
                }
                assert forall|pp: int, k: int|
                    #![trigger self.open_list.queue()[pp][k]]
                    0 <= pp < q1.len() && q1[pp].len() <= k < self.open_list.queue()[pp].len() implies exists|m: (int, int)|
                        #[trigger] moves@.contains(m) && self.open_list.queue()[pp][k].checkpoint.spec_player()
                            == child_player(self.helper.forward(), &g0, m)
                            && self.open_list.queue()[pp][k].checkpoint.spec_boxes() == child_boxes(&g0, m) by {
                    if pp == prio as int && k == qa[pp].len() {
                        assert(self.open_list.queue()[pp][k] == gn);
                        assert(moves@.contains(mk));
                    } else if pp == prio as int {
                        assert(self.open_list.queue()[pp][k] == qa[pp][k]);
                    } else {
                        assert(self.open_list.queue()[pp] == qa[pp]);
                    }
                }
                assert(self.new_nodes_children(old(self), pw, g0, moves@));
            }
            self.game.restore(&checkpoint);
        }
        proof {
            lemma_position_key_same(self.keys(), g0, self.game);
            assert(self.expanded_from(old(self), pw));
            assert forall|m: (int, int)| #[trigger] tried_moves(rsg, crg).contains(m) implies self.child_done(node, g0, m) by {
                assert(moves@.contains(m));
            }
            assert(old(self).helper.corral_ok(g0, rsg, crg));
            assert(self.children_opened(old(self), pw));
        }
        ExpandNode::NotDone
    }
}

impl<H: Heuristic, S: SearchHelper> Searcher<H, S> {
    /// Every key of the table `before` is still known, with the same parent,
    /// and stays closed if it was.
    pub closed spec fn table_keeps(&self, before: &Self) -> bool {
        forall|h: u64| #[trigger]
            before.table@.contains_key(h) ==> self.table@.contains_key(h) && self.table@[h].parent_hash
                == before.table@[h].parent_hash && (before.table@[h].is_closed ==> self.table@[h].is_closed)
    }

    /// What an expansion of the best node, the first at priority `p` in the
    /// open list of `before`, leaves: that node is gone and the others wait
    /// as before; the game stands on the node's position; the node's key is
    /// closed if the table knew it; and every node added waits for a
    /// position whose key the table did not know before and now knows, open,
    /// with the key of the expanded position as its parent.
    pub closed spec fn expanded_from(&self, before: &Self, p: int) -> bool {
        let q1 = before.open_list.queue().update(p, before.open_list.queue()[p].drop_first());
        let n = before.open_list.queue()[p][0];
        let pk = raw_key(before.keys(), n.checkpoint.spec_player(), n.checkpoint.spec_boxes());
        &&& grows(q1, self.open_list.queue())
        &&& self.game.spec_player() == n.checkpoint.spec_player()
        &&& self.game.box_list() == n.checkpoint.spec_boxes()
        &&& before.table@.contains_key(pk) ==> self.table@[pk].is_closed
        &&& self.new_nodes_ok(before, q1)
    }

    /// The expansion of the first node at priority `p` in `before` meets the
    /// other search: the table of `before` knows the node's key, open; the
    /// key of its position, if another, is not closed there; and the other
    /// search has seen that position.
    /// The node at priority `p` of `before` gets expanded: the table of
    /// `before` knows its key, open, and the key of its position, if another,
    /// is not closed there.
    pub closed spec fn opens(&self, before: &Self, p: int) -> bool {
        let n = before.open_list.queue()[p][0];
        let pk = raw_key(before.keys(), n.checkpoint.spec_player(), n.checkpoint.spec_boxes());
        let ck = position_key(self.keys(), self.game);
        &&& before.table@.contains_key(pk)
        &&& !before.table@[pk].is_closed
        &&& (ck == pk || !(before.table@.contains_key(ck) && before.table@[ck].is_closed))
    }

    /// Move `m` from the node `n` in game `g` is left out, or its child is
    /// known to the table: its box is frozen in the node; it goes onto a
    /// dead square; the child freezes a box off its goal; or the table knows
    /// the child's key.
    pub closed spec fn child_done(&self, n: Node, g: Game, m: (int, int)) -> bool {
        let fwd = self.helper.forward();
        let target = g.neighbor(g.box_list()[m.1], dir_at(m.0))->0;
        ||| n.frozen_boxes@.contains(m.1)
        ||| exists|gd: Game| #[trigger] self.helper.dead_at(gd, target) && gd.wf() && gd.same_state(&g)
        ||| exists|c: Game|
            #![trigger self.helper.frozen_new(n.frozen_boxes@, c, m.1)]
            c.wf() && c.same_board(&g) && c.spec_player() == child_player(fwd, &g, m) && c.box_list() == child_boxes(
                &g,
                m,
            ) && !(c.spec_unsolved().intersect(n.frozen_boxes@.union(self.helper.frozen_new(n.frozen_boxes@, c, m.1)))
                =~= Set::<int>::empty())
        ||| self.table@.contains_key(raw_key(self.keys(), child_player(fwd, &g, m), child_boxes(&g, m)))
    }

    /// Expanding the node at priority `p` of `before`, if it gets expanded,
    /// drew its moves and the corral answer from the helper of `before` on
    /// the node's position, and either the corral is a deadlock or every
    /// move it kept is left out or has its child in the table.
    pub closed spec fn children_opened(&self, before: &Self, p: int) -> bool {
        let n = before.open_list.queue()[p][0];
        self.opens(before, p) ==> exists|gr: Game, rs: ReachableSet<S::Move>, cr: CorralResult<S::Move>|
            #![trigger before.helper.corral_ok(gr, rs, cr)]
            gr.wf() && gr.same_board(&before.board@) && gr.spec_player() == n.checkpoint.spec_player()
                && gr.box_list() == n.checkpoint.spec_boxes() && before.helper.reach_ok(gr, rs)
                && before.helper.corral_ok(gr, rs, cr) && (cr is Deadlocked || forall|m: (int, int)|
                #[trigger] tried_moves(rs, cr).contains(m) ==> self.child_done(n, gr, m)) && self.new_nodes_children(
                before,
                p,
                gr,
                tried_moves(rs, cr),
            )
    }

    /// Every node the expansion of the node at priority `p` of `before`
    /// queued holds the child of one of `tried` from `g`.
    pub closed spec fn new_nodes_children(&self, before: &Self, p: int, g: Game, tried: Set<(int, int)>) -> bool {
        let q0 = before.open_list.queue();
        let q1 = q0.update(p, q0[p].drop_first());
        forall|pp: int, k: int|
            #![trigger self.open_list.queue()[pp][k]]
            0 <= pp < q1.len() && q1[pp].len() <= k < self.open_list.queue()[pp].len() ==> exists|m: (int, int)|
                #[trigger] tried.contains(m) && self.open_list.queue()[pp][k].checkpoint.spec_player() == child_player(
                    self.helper.forward(),
                    &g,
                    m,
                ) && self.open_list.queue()[pp][k].checkpoint.spec_boxes() == child_boxes(&g, m)
    }

    pub closed spec fn meets<H2: Heuristic, S2: SearchHelper>(
        &self,
        before: &Self,
        p: int,
        other: &Searcher<H2, S2>,
    ) -> bool {
        let n = before.open_list.queue()[p][0];
        let pk = raw_key(before.keys(), n.checkpoint.spec_player(), n.checkpoint.spec_boxes());
        let ck = position_key(self.keys(), self.game);
        &&& before.table@.contains_key(pk)
        &&& !before.table@[pk].is_closed
        &&& (ck == pk || !(before.table@.contains_key(ck) && before.table@[ck].is_closed))
        &&& other.seen().contains(ck)
    }

    /// Every node of the open list beyond the lines of `q1` waits for a
    /// position whose key the table `before` did not know and the table now
    /// knows, open, with the key of the game's position as its parent.
    pub closed spec fn new_nodes_ok(&self, before: &Self, q1: Seq<Seq<Node>>) -> bool {
        forall|pp: int, k: int|
            0 <= pp < q1.len() && q1[pp].len() <= k < self.open_list.queue()[pp].len() ==> {
                let nd = #[trigger] self.open_list.queue()[pp][k];
                let ck = raw_key(self.keys(), nd.checkpoint.spec_player(), nd.checkpoint.spec_boxes());
                &&& !before.table@.contains_key(ck)
                &&& self.table@.contains_key(ck)
                &&& self.table@[ck].parent_hash == position_key(self.keys(), self.game)
                &&& !self.table@[ck].is_closed
            }
    }

    /// Some node waits in the open list for each of the given start squares'
    /// positions only: the player on one of them, the boxes as on the board.
    /// The search starts from the player on each of `starts` with the boxes
    /// as on the board: each such position is known with no parent and
    /// waits in the open list, unless the heuristic finds it hopeless; the
    /// table knows nothing else, and the open list holds nothing else.
    pub closed spec fn started_from(&self, starts: Seq<Position>) -> bool {
        &&& forall|h: u64| #[trigger]
            self.seen().contains(h) ==> self.parent_of(h) == Some(0u64) && exists|j: int|
                0 <= j < starts.len() && h == position_key(self.keys(), self.spec_board().with_player(starts[j]))
        &&& self.open_from(starts)
        &&& forall|j: int|
            0 <= j < starts.len() ==> (self.parent_of(
                position_key(self.keys(), self.spec_board().with_player(#[trigger] starts[j])),
            ) == Some(0u64) && self.has_open_node(starts[j])) || exists|h: H|
                h.gives(self.spec_board().with_player(starts[j]), Cost(u16::MAX))
    }

    /// How many nodes the search has taken off its open list.
    pub closed spec fn expanded(&self) -> nat {
        self.expanded@
    }

    pub closed spec fn open_from(&self, starts: Seq<Position>) -> bool {
        forall|p: int, k: int|
            0 <= p < self.open_list.queue().len() && 0 <= k < self.open_list.queue()[p].len() ==> node_from(
                #[trigger] self.open_list.queue()[p][k],
                starts,
                self.board@.box_list(),
            )
    }

    /// A node of the position with the player on `p` and the boxes as on the
    /// board waits in the open list.
    pub closed spec fn has_open_node(&self, p: Position) -> bool {
        open_has(self.open_list.queue(), p, self.board@.box_list())
    }

    /// The key of the parent of the position with key `h` in the search's
    /// table, if the table knows `h`; `0` marks a start position.
    pub closed spec fn parent_of(&self, h: u64) -> Option<u64> {
        if self.table@.contains_key(h) {
            Some(self.table@[h].parent_hash)
        } else {
            None
        }
    }

    /// One link of the way back: the table makes `b` the parent of `a`, `b`
    /// is `a` with one move of the search undone, and `p` is the push (by box
    /// square) from `b` that this move stands for.
    pub closed spec fn link(&self, a: Game, b: Game, p: PushByPos) -> bool {
        &&& self.parent_of(position_key(*self.zobrist, a)) == Some(position_key(*self.zobrist, b))
        &&& position_key(*self.zobrist, b) != 0
        &&& exists|m: (int, int)| #[trigger]
            unmade(self.helper.forward(), &a, &b, m) && push_by_pos_of(self.helper.forward(), &b, m) == Some(p)
    }

    /// The games `gs` lead back from the search's game, link by link through
    /// the pushes `s`, to a start position of the table.
    pub closed spec fn traces_back(&self, s: Seq<PushByPos>, gs: Seq<Game>) -> bool {
        &&& gs.len() == s.len() + 1
        &&& gs[0].same_state(&self.game)
        &&& forall|k: int| 0 <= k < gs.len() ==> #[trigger] gs[k].wf()
        &&& forall|k: int| 0 <= k < s.len() ==> #[trigger] self.link(gs[k], gs[k + 1], s[k])
        &&& self.parent_of(position_key(*self.zobrist, gs[s.len() as int])) == Some(0u64)
    }

    /// The pushes (by box square) that lead from the search's start to its
    /// current position, found by walking the table's parent links back and
    /// finding, at each step, the move that leads to the parent. `None` if a
    /// link cannot be followed.
    fn reconstruct_solution(&self) -> (r: Option<Vec<PushByPos>>)
        requires
            self.inv(),
            self.game.grounded(),
        ensures
            self.parent_of(position_key(self.keys(), self.spec_game())) is None ==> r is None,
            self.parent_of(position_key(self.keys(), self.spec_game())) == Some(0u64) ==> (r matches Some(s) && s@.len()
                == 0),
            r matches Some(s) ==> exists|gs: Seq<Game>| #[trigger] self.traces_back(s@, gs),
    {
        let mut solution: Vec<PushByPos> = Vec::new();
        let mut current_game = self.game.clone();
        proof {
            current_game.lemma_wf_core();
            self.game.lemma_wf_core();
            crate::game::lemma_same_state_grounded(&current_game, &self.game);
            crate::game::lemma_same_state(&current_game, &self.game);
            current_game.lemma_region_is(current_game.spec_player(), current_game.region(current_game.spec_player()));
        }
        let mut current_hash = self.zobrist.compute_hash(&current_game);
        proof {
            lemma_position_key(self.keys(), current_game, current_hash);
            assert(current_game.region(current_game.spec_player()) == self.game.region(self.game.spec_player()));
        }
        let ghost mut gs: Seq<Game> = seq![current_game];
        let limit = self.table.len();
        let mut steps: usize = 0;
        loop
            invariant
                self.inv(),
                current_game.wf(),
                current_game.grounded(),
                steps <= limit,
                current_hash == position_key(*self.zobrist, current_game),
                gs.len() == solution@.len() + 1,
                gs[0].same_state(&self.game),
                gs[solution@.len() as int] == current_game,
                forall|k: int| 0 <= k < gs.len() ==> #[trigger] gs[k].wf(),
                forall|k: int| 0 <= k < solution@.len() ==> #[trigger] self.link(gs[k], gs[k + 1], solution@[k]),
                solution@.len() == 0 ==> current_hash == position_key(self.keys(), self.spec_game()),
                solution@.len() > 0 ==> (self.parent_of(position_key(self.keys(), self.spec_game())) is Some
                    && self.parent_of(position_key(self.keys(), self.spec_game())) != Some(0u64)),
            ensures
                self.parent_of(current_hash) == Some(0u64),
            decreases limit - steps,
        {
            broadcast use vstd::std_specs::hash::group_hash_axioms;

            let entry = match self.table.get(&current_hash) {
                Some(e) => *e,
                None => {
                    return None;
                },
            };
            proof {
                assert(self.table@.contains_key(current_hash) && self.table@[current_hash] == entry);
            }
            if entry.parent_hash == 0 {
                break;
            }
            if steps >= limit {
                return None;
            }
            steps = steps + 1;
            let unmoves = self.helper.compute_unmoves(&current_game);
            let ghost g0 = current_game;
            let ghost fwd = self.helper.forward();
            let ghost sol0 = solution@;
            let checkpoint = current_game.checkpoint();
            let mut found = false;
            let mut it = unmoves.iter();
            loop
                invariant_except_break
                    it.inv(),
                    forall|m: (int, int)| #[trigger] it@.contains(m) ==> unmoves@.contains(m),
                    current_game.same_state(&g0),
                    solution@ == sol0,
                    !found,
                invariant
                    current_game.wf(),
                    current_game.grounded(),
                    g0.wf(),
                    g0.grounded(),
                    fwd == self.helper.forward(),
                    checkpoint.spec_player() == g0.spec_player(),
                    checkpoint.spec_boxes() == g0.box_list(),
                    forall|m: (int, int)| #[trigger] unmoves@.contains(m) ==> unmove_allowed(fwd, &g0, m),
                    self.inv(),
                    entry.parent_hash != 0,
                    self.table@.contains_key(position_key(*self.zobrist, g0)),
                    self.table@[position_key(*self.zobrist, g0)] == entry,
                ensures
                    found ==> {
                        &&& solution@.len() == sol0.len() + 1
                        &&& solution@.drop_last() == sol0
                        &&& current_hash == position_key(*self.zobrist, current_game)
                        &&& self.link(g0, current_game, solution@.last())
                    },
                    !found ==> solution@ == sol0,
                decreases it@.len(),
            {
                proof {
                    unmoves.lemma_bounded();
                    vstd::set_lib::lemma_len_subset(it@, unmoves@);
                }
                let next = it.next();
                let unmove = match next {
                    Some(m) => m,
                    None => {
                        break;
                    },
                };
                proof {
                    assert(unmoves@.contains(move_key(unmove)));
                    lemma_allowed_same(fwd, &current_game, &g0, move_key(unmove));
                }
                let ghost gb = current_game;
                self.helper.apply_unmove(&mut current_game, &unmove);
                proof {
                    current_game.lemma_wf_core();
                    current_game.lemma_wf();
                }
                let prev_hash = self.zobrist.compute_hash(&current_game);
                proof {
                    lemma_position_key(self.keys(), current_game, prev_hash);
                }
                if prev_hash == entry.parent_hash {
                    match self.helper.to_push_by_pos(&current_game, &unmove) {
                        Some(p) => {
                            solution.push(p);
                            proof {
                                gb.lemma_wf_core();
                                g0.lemma_wf_core();
                                crate::game::lemma_same_state(&gb, &g0);
                                lemma_unmade_same(fwd, &gb, &g0, &current_game, move_key(unmove));
                                assert(solution@.drop_last() =~= sol0);
                                assert(unmade(fwd, &g0, &current_game, move_key(unmove)));
                                assert(push_by_pos_of(fwd, &current_game, move_key(unmove)) == Some(p));
                                assert(self.parent_of(position_key(*self.zobrist, g0)) == Some(position_key(*self.zobrist, current_game)));
                                assert(self.link(g0, current_game, solution@.last()));
                            }
                        },
                        None => {
                            return None;
                        },
                    }
                    current_hash = prev_hash;
                    found = true;
                    break;
                }
                current_game.restore(&checkpoint);
                proof {
                    current_game.lemma_wf_core();
                    g0.lemma_wf_core();
                    crate::game::lemma_same_state_grounded(&current_game, &g0);
                }
            }
            if !found {
                return None;
            }
            proof {
                let gs0 = gs;
                gs = gs.push(current_game);
                assert forall|k: int| 0 <= k < gs.len() implies #[trigger] gs[k].wf() by {
                    if k < gs0.len() {
                        assert(gs[k] == gs0[k]);
                    }
                }
                assert forall|k: int| 0 <= k < solution@.len() implies #[trigger] self.link(gs[k], gs[k + 1], solution@[k]) by {
                    if k < sol0.len() {
                        assert(gs[k] == gs0[k]);
                        assert(gs[k + 1] == gs0[k + 1]);
                        assert(solution@[k] == sol0[k]);
                    } else {
                        assert(gs[k] == g0);
                    }
                }
            }
        }
        proof {
            assert(self.traces_back(solution@, gs));
        }
        Some(solution)
    }
}

/// The player reaches box `i` from the side opposite `d` and pushes it one
/// square in direction `d`, turning game `a` into game `b`.
pub open spec fn push_step(a: Game, b: Game, p: Push) -> bool {
    let i = p.box_index.0 as int;
    let d = p.direction;
    &&& 0 <= i < a.box_list().len()
    &&& exists|sq: Set<Position>| #[trigger] a.walk_region(a.spec_player(), sq) && a.reaches_box(sq, i, d)
    &&& a.push_free(i, d)
    &&& b.same_board(&a)
    &&& b.spec_player() == a.box_list()[i]
    &&& b.box_list() == a.box_list().update(i, a.neighbor(a.box_list()[i], d)->0)
}

/// Every box stands on a goal.
pub open spec fn solved(g: Game) -> bool {
    forall|i: int| 0 <= i < g.box_list().len() ==> g.spec_tile(#[trigger] g.box_list()[i]) == Tile::Goal
}

/// The pushes, made one by one from `g0`, go through the games `gs` and end
/// with every box on a goal.
pub open spec fn plays(g0: Game, pushes: Seq<Push>, gs: Seq<Game>) -> bool {
    &&& gs.len() == pushes.len() + 1
    &&& gs[0].same_state(&g0)
    &&& forall|k: int| 0 <= k < pushes.len() ==> #[trigger] push_step(gs[k], gs[k + 1], pushes[k])
    &&& solved(gs[pushes.len() as int])
}

/// The pushes solve the game: each can be made in turn, and at the end
/// every box is on a goal.
pub open spec fn solves(g0: Game, pushes: Seq<Push>) -> bool {
    exists|gs: Seq<Game>| #[trigger] plays(g0, pushes, gs)
}

/// `b` is `a` after the push that the box square and the direction of `s`
/// name.
pub open spec fn step_by_pos(a: Game, b: Game, s: PushByPos) -> bool {
    exists|i: int|
        0 <= i < a.box_list().len() && a.box_list()[i] == s.box_pos && #[trigger] push_step(
            a,
            b,
            Push { box_index: Index(i as u8), direction: s.direction },
        )
}

/// The games `gs` go from `g0` through the steps one by one and end with
/// every box on a goal.
pub open spec fn replay_through(g0: Game, steps: Seq<PushByPos>, gs: Seq<Game>) -> bool {
    &&& gs.len() == steps.len() + 1
    &&& forall|k: int| 0 <= k < gs.len() ==> #[trigger] gs[k].wf()
    &&& gs[0].same_state(&g0)
    &&& forall|k: int| 0 <= k < steps.len() ==> #[trigger] step_by_pos(gs[k], gs[k + 1], steps[k])
    &&& solved(gs[steps.len() as int])
}

/// The steps can be made one by one from `g0`, and at the end every box is
/// on a goal.
pub open spec fn replays(g0: Game, steps: Seq<PushByPos>) -> bool {
    exists|gs: Seq<Game>| #[trigger] replay_through(g0, steps, gs)
}

/// The two halves of a solution joined: the forward half read backwards,
/// then the reverse half.
pub open spec fn joined(fwd: Seq<PushByPos>, rev: Seq<PushByPos>) -> Seq<PushByPos> {
    Seq::new(fwd.len(), |k: int| fwd[fwd.len() - 1 - k]) + rev
}

/// With no steps to make, a replay succeeds exactly when every box is on a
/// goal.
proof fn lemma_replays_empty(g: Game)
    requires
        g.wf(),
    ensures
        replays(g, Seq::empty()) == solved(g),
{
    g.lemma_wf_core();
    g.lemma_wf();
    if solved(g) {
        let gs = seq![g];
        assert(replay_through(g, Seq::empty(), gs));
    }
    if replays(g, Seq::empty()) {
        let hs = choose|hs: Seq<Game>| #[trigger] replay_through(g, Seq::empty(), hs);
        assert forall|i: int| 0 <= i < g.box_list().len() implies g.spec_tile(#[trigger] g.box_list()[i]) == Tile::Goal by {
            assert(on_grid(g.box_list()[i]));
            assert(hs[0].box_list()[i] == g.box_list()[i]);
        }
    }
}

/// Games in the same state allow the same pushes.
pub(crate) proof fn lemma_reachable_push_same(a: Game, a2: Game, m: (int, int))
    requires
        a.wf(),
        a2.wf(),
        a.same_state(&a2),
    ensures
        reachable_push(&a, m) == reachable_push(&a2, m),
{
    a.lemma_wf_core();
    a2.lemma_wf_core();
    crate::game::lemma_same_state(&a, &a2);
    if 0 <= m.0 < 4 && 0 <= m.1 < a.box_list().len() {
        let d = dir_at(m.0);
        assert forall|sq: Set<Position>| #[trigger] a.reaches_box(sq, m.1, d) == a2.reaches_box(sq, m.1, d) by {
            if a.reaches_box(sq, m.1, d) {
                let from = choose|from: Position|
                    sq.contains(from) && a.box_touch(sq, from, d) && a.neighbor(from, d)->0 == a.box_list()[m.1];
                a.lemma_neighbor_on_grid(from, d);
                assert(a2.box_touch(sq, from, d));
            }
            if a2.reaches_box(sq, m.1, d) {
                let from = choose|from: Position|
                    sq.contains(from) && a2.box_touch(sq, from, d) && a2.neighbor(from, d)->0 == a2.box_list()[m.1];
                a2.lemma_neighbor_on_grid(from, d);
                assert(a.box_touch(sq, from, d));
            }
        }
        if reachable_push(&a, m) {
            let sq = choose|sq: Set<Position>| #[trigger]
                a.walk_region(a.spec_player(), sq) && a.reaches_box(sq, m.1, dir_at(m.0));
            assert(a2.walk_region(a2.spec_player(), sq) && a2.reaches_box(sq, m.1, dir_at(m.0)));
        }
        if reachable_push(&a2, m) {
            let sq = choose|sq: Set<Position>| #[trigger]
                a2.walk_region(a2.spec_player(), sq) && a2.reaches_box(sq, m.1, dir_at(m.0));
            assert(a.walk_region(a.spec_player(), sq) && a.reaches_box(sq, m.1, dir_at(m.0)));
        }
    }
}

/// The same push from games in the same state gives games in the same state.
proof fn lemma_push_step_same(a: Game, b: Game, a2: Game, b2: Game, p: Push)
    requires
        a.wf(),
        a2.wf(),
        a.same_state(&a2),
        push_step(a, b, p),
        push_step(a2, b2, p),
    ensures
        b.same_state(&b2),
{
    a.lemma_wf_core();
    a2.lemma_wf_core();
    crate::game::lemma_same_state(&a, &a2);
    assert(b.box_list() =~= b2.box_list());
}

pub struct SolverOpts {
    pub search_type: SearchType,
    pub max_nodes_explored: usize,
    pub freeze_deadlocks: bool,
    pub dead_squares: bool,
    pub pi_corrals: bool,
    pub deadlock_max_nodes: usize,
    pub trace_range: Range<usize>,
}

/// Whether the expansion made after `count` expansions is the forward
/// search's.
pub open spec fn picks_forward(search_type: SearchType, count: usize) -> bool {
    match search_type {
        SearchType::Forward => true,
        SearchType::Reverse => false,
        SearchType::Bidirectional => count % 2 == 0,
    }
}

/// The most expansions a solve makes: the node limit, and at least one.
pub open spec fn node_limit(max_nodes: usize) -> usize {
    if max_nodes == 0 {
        1
    } else {
        max_nodes
    }
}

/// Two boards with the same walls and size, and as many boxes.
pub open spec fn same_walls(a: Game, b: Game) -> bool {
    &&& a.spec_width() == b.spec_width()
    &&& a.spec_height() == b.spec_height()
    &&& a.box_list().len() == b.box_list().len()
    &&& forall|p: Position| on_grid(p) ==> (#[trigger] a.spec_tile(p) == Tile::Wall) == (b.spec_tile(p) == Tile::Wall)
}

/// A bidirectional solver: a forward search by pushes from the start and a
/// reverse search by pulls from the goals, which meet in the middle.
pub struct Solver<H> {
    forward: Searcher<H, ForwardSearchHelper>,
    reverse: Searcher<H, ReverseSearchHelper>,
    game: Game,
    opts: SolverOpts,
}

impl<H: Heuristic> Solver<H> {
    /// Both searches hold their invariants, on boards with the same walls,
    /// and the solver's game is the forward search's start.
    pub closed spec fn inv(&self) -> bool {
        &&& self.forward.inv()
        &&& self.reverse.inv()
        &&& self.forward.is_forward()
        &&& !self.reverse.is_forward()
        &&& same_walls(self.forward.spec_board(), self.reverse.spec_board())
        &&& self.game.wf()
        &&& self.game.grounded()
        &&& self.game.same_state(&self.forward.spec_board())
    }

    /// The game the solver solves.
    pub closed spec fn spec_game(&self) -> Game {
        self.game
    }

    /// The current position of the forward search, or of the reverse search.
    pub closed spec fn search_game(&self, forward: bool) -> Game {
        if forward {
            self.forward.spec_game()
        } else {
            self.reverse.spec_game()
        }
    }

    /// The options the solver was made with.
    pub closed spec fn spec_opts(&self) -> SolverOpts {
        self.opts
    }

    /// No node waits in the open list of the forward search, or of the
    /// reverse search.
    pub closed spec fn open_empty(&self, forward: bool) -> bool {
        if forward {
            self.forward.open_empty()
        } else {
            self.reverse.open_empty()
        }
    }

    /// The board of the forward search, or of the reverse search.
    pub closed spec fn search_board(&self, forward: bool) -> Game {
        if forward {
            self.forward.spec_board()
        } else {
            self.reverse.spec_board()
        }
    }

    /// The forward search, or the reverse search, started from the player on
    /// each of `starts` (see `Searcher::started_from`).
    pub closed spec fn started(&self, forward: bool, starts: Seq<Position>) -> bool {
        if forward {
            self.forward.started_from(starts)
        } else {
            self.reverse.started_from(starts)
        }
    }

    /// How many nodes the two searches have taken off their open lists.
    pub closed spec fn expanded(&self) -> nat {
        self.forward.expanded() + self.reverse.expanded()
    }

    /// The two searches stand on the same position.
    pub closed spec fn met(&self) -> bool {
        &&& self.forward.spec_game().box_list() == self.reverse.spec_game().box_list()
        &&& self.forward.spec_game().spec_player() == self.reverse.spec_game().spec_player()
    }

    pub fn new(game: &Game, opts: SolverOpts) -> (r: Self)
        requires
            game.wf(),
            game.grounded(),
            game.box_list().len() == game.goal_list().len(),
        ensures
            r.inv(),
            r.spec_game().same_state(game),
            r.spec_opts() == opts,
            r.search_board(true).same_state(game),
            exists|c: Position| #[trigger]
                is_top_left(c, game.region(game.spec_player())) && r.started(true, seq![c]),
            exists|rg: Game, rs: Seq<Position>| #[trigger]
                swapped(*game, rg) && r.search_board(false).same_state(&rg) && #[trigger] r.started(false, rs)
                    && rs.no_duplicates() && (forall|i: int| 0 <= i < rs.len() ==> rg.region_start(#[trigger] rs[i]))
                    && forall|p: Position| #[trigger]
                    rg.free_square(p) && rg.touches_box(rg.region(p)) ==> exists|i: int|
                        0 <= i < rs.len() && is_top_left(#[trigger] rs[i], rg.region(p)),
    {
        proof {
            game.lemma_wf_core();
            game.lemma_wf();
        }
        let zobrist = Rc::new(Zobrist::new());
        let reverse_game = game.swap_boxes_and_goals();
        proof {
            crate::game::lemma_swap_on_board(game, &reverse_game);
        }
        let canonical = game.canonical_player_pos();
        proof {
            game.lemma_region_free(game.spec_player());
        }
        let forward_player_positions = vec![canonical];
        let reverse_player_positions = reverse_game.all_possible_player_positions();
        proof {
            assert forall|i: int| 0 <= i < reverse_player_positions@.len() implies #[trigger] reverse_game.free_square(
                reverse_player_positions@[i]) by {
                reverse_game.lemma_region_start_free(reverse_player_positions@[i]);
            }
            assert(forward_player_positions@[0] == canonical);
        }
        let forward_helper = ForwardSearchHelper {
            corral_searcher: CorralSearcher::new(zobrist.clone(), opts.deadlock_max_nodes),
            dead_squares: opts.dead_squares,
            pi_corrals: opts.pi_corrals,
            freeze_deadlocks: opts.freeze_deadlocks,
        };
        let reverse_helper = ReverseSearchHelper { dead_squares: opts.dead_squares };
        let forward_searcher = Searcher::new(game, zobrist.clone(), forward_player_positions.as_slice(), forward_helper);
        let reverse_searcher = Searcher::new(&reverse_game, zobrist, reverse_player_positions.as_slice(), reverse_helper);
        let own = game.clone();
        proof {
            game.lemma_wf_core();
            reverse_game.lemma_wf_core();
            assert forall|p: Position| on_grid(p) implies (#[trigger] forward_searcher.spec_board().spec_tile(p) == Tile::Wall)
                == (reverse_searcher.spec_board().spec_tile(p) == Tile::Wall) by {
                if game.box_list().contains(p) {
                    let i = choose|i: int| 0 <= i < game.box_list().len() && game.box_list()[i] == p;
                    assert(game.spec_tile(game.box_list()[i]) != Tile::Wall);
                } else if game.goal_list().contains(p) {
                    let i = choose|i: int| 0 <= i < game.goal_list().len() && game.goal_list()[i] == p;
                    assert(game.spec_tile(game.goal_list()[i]) == Tile::Goal);
                }
            }
            own.lemma_wf_core();
            crate::game::lemma_same_state_grounded(&own, game);
        }
        let r = Self { forward: forward_searcher, reverse: reverse_searcher, game: own, opts };
        proof {
            assert(forward_player_positions@ =~= seq![canonical]);
            assert(r.started(true, seq![canonical]));
            assert(r.started(false, reverse_player_positions@));
        }
        r
    }
}

/// Makes the push that a box square and a direction name, if the player can
/// make it.
fn apply_step(game: &mut Game, pbp: PushByPos) -> (r: Option<Push>)
    requires
        old(game).wf(),
        old(game).grounded(),
    ensures
        final(game).wf(),
        final(game).grounded(),
        r matches Some(p) ==> push_step(*old(game), *final(game), p),
        r matches Some(p) ==> p.direction == pbp.direction && old(game).box_list()[p.box_index.0 as int] == pbp.box_pos,
        r is None ==> *final(game) == *old(game),
        r is Some <==> exists|i: int|
            0 <= i < old(game).box_list().len() && old(game).box_list()[i] == pbp.box_pos && #[trigger] reachable_push(
                old(game),
                (dir_num(pbp.direction), i),
            ),
{
    proof {
        game.lemma_wf_core();
        game.lemma_wf();
    }
    if pbp.box_pos.0 >= 64 || pbp.box_pos.1 >= 64 {
        proof {
            assert forall|i: int| 0 <= i < game.box_list().len() implies game.box_list()[i] != pbp.box_pos by {
                assert(on_grid(game.box_list()[i]));
            }
        }
        return None;
    }
    let box_index = match game.box_index(pbp.box_pos) {
        Some(i) => i,
        None => {
            proof {
                assert forall|i: int| 0 <= i < game.box_list().len() implies game.box_list()[i] != pbp.box_pos by {
                    assert(game.box_list().contains(game.box_list()[i]));
                }
            }
            return None;
        },
    };
    let reachable = game.compute_pushes();
    let push = Push::new(box_index, pbp.direction);
    if !reachable.moves.contains(push) {
        proof {
            lemma_dir_num(pbp.direction);
            assert forall|i: int|
                0 <= i < game.box_list().len() && game.box_list()[i] == pbp.box_pos implies !#[trigger] reachable_push(
                    &*game,
                    (dir_num(pbp.direction), i),
                ) by {
                assert(game.box_list().no_duplicates());
                assert(i == box_index.0);
                if reachable_push(&*game, (dir_num(pbp.direction), i)) {
                    let sq = choose|sq: Set<Position>| #[trigger]
                        game.walk_region(game.spec_player(), sq) && game.reaches_box(sq, i, pbp.direction);
                    game.lemma_region_is(game.spec_player(), sq);
                    game.lemma_region_is(game.spec_player(), reachable.squares@);
                    assert(reachable.moves@.contains((dir_num(pbp.direction), i)));
                }
            }
        }
        return None;
    }
    let ghost g0 = *game;
    proof {
        lemma_dir_num(pbp.direction);
        assert(reachable.moves@.contains((dir_num(pbp.direction), box_index.0 as int)));
        assert(g0.walk_region(g0.spec_player(), reachable.squares@) && g0.reaches_box(reachable.squares@, box_index.0 as int, pbp.direction));
        assert(reachable_push(&g0, (dir_num(pbp.direction), box_index.0 as int)));
    }
    game.push(push);
    proof {
        crate::game::lemma_push_grounded(&g0, &*game, push);
    }
    Some(push)
}

impl<H: Heuristic> Solver<H> {
    pub closed spec fn spec_max_nodes(&self) -> usize {
        self.opts.max_nodes_explored
    }

    /// Replays the two halves of a solution from the start: the forward half
    /// backwards, then the reverse half. `None` if a push cannot be made or
    /// the last position is not solved.
    fn combine_solution(&self, forward_soln: &Vec<PushByPos>, reverse_soln: &Vec<PushByPos>) -> (r: Option<Vec<Push>>)
        requires
            self.inv(),
        ensures
            r matches Some(s) ==> solves(self.spec_game(), s@),
            r is Some <==> replays(self.spec_game(), joined(forward_soln@, reverse_soln@)),
    {
        let ghost steps = joined(forward_soln@, reverse_soln@);
        let mut game = self.game.clone();
        proof {
            game.lemma_wf_core();
            self.game.lemma_wf_core();
            crate::game::lemma_same_state_grounded(&game, &self.game);
        }
        let mut soln: Vec<Push> = Vec::new();
        let ghost mut gs: Seq<Game> = seq![game];
        let nf = forward_soln.len();
        let mut i: usize = 0;
        proof {
            assert forall|hs: Seq<Game>| #[trigger] replay_through(self.game, steps, hs) implies hs[0].same_state(&game) by {}
        }
        while i < nf
            invariant
                nf == forward_soln@.len(),
                i <= nf,
                game.wf(),
                game.grounded(),
                gs.len() == soln@.len() + 1,
                gs[0].same_state(&self.game),
                forall|k: int| 0 <= k < soln@.len() ==> #[trigger] push_step(gs[k], gs[k + 1], soln@[k]),
                gs[soln@.len() as int] == game,
                forall|k: int| 0 <= k < gs.len() ==> #[trigger] gs[k].wf(),
                steps == joined(forward_soln@, reverse_soln@),
                forall|k: int| 0 <= k < soln@.len() ==> #[trigger] step_by_pos(gs[k], gs[k + 1], steps[k]),
                forall|hs: Seq<Game>| #[trigger] replay_through(self.game, steps, hs) ==> hs[soln@.len() as int].same_state(&game),
                soln@.len() == i,
                self.game.wf(),
            decreases nf - i,
        {
            let ghost g0 = game;
            let push = match apply_step(&mut game, forward_soln[nf - 1 - i]) {
                Some(p) => p,
                None => {
                    proof {
                        let k = i as int;
                        assert forall|hs: Seq<Game>| !#[trigger] replay_through(self.game, steps, hs) by {
                            if replay_through(self.game, steps, hs) {
                                assert(step_by_pos(hs[k], hs[k + 1], steps[k]));
                                let d = steps[k].direction;
                                let idx = choose|idx: int|
                                    0 <= idx < hs[k].box_list().len() && hs[k].box_list()[idx] == steps[k].box_pos
                                        && #[trigger] push_step(hs[k], hs[k + 1], Push { box_index: Index(idx as u8), direction: d });
                                lemma_dir_num(d);
                                hs[k].lemma_wf_core();
                                hs[k].lemma_wf();
                                assert((idx as u8) as int == idx);
                                assert(reachable_push(&hs[k], (dir_num(d), idx)));
                                lemma_reachable_push_same(hs[k], g0, (dir_num(d), idx));
                                assert(reachable_push(&g0, (dir_num(d), idx)));
                            }
                        }
                    }
                    return None;
                },
            };
            proof {
                assert(steps[i as int] == forward_soln@[nf - 1 - i]);
            }
            let ghost gs0 = gs;
            let ghost s0 = soln@;
            soln.push(push);
            proof {
                gs = gs.push(game);
                assert forall|k: int| 0 <= k < soln@.len() implies #[trigger] push_step(gs[k], gs[k + 1], soln@[k]) by {
                    if k < s0.len() {
                        assert(gs[k] == gs0[k]);
                        assert(gs[k + 1] == gs0[k + 1]);
                        assert(soln@[k] == s0[k]);
                    } else {
                        assert(gs[k] == g0);
                    }
                }
                let kk = s0.len() as int;
                assert(gs[kk] == g0);
                assert(gs[kk + 1] == game);
                assert(push == Push { box_index: Index(push.box_index.0 as int as u8), direction: steps[kk].direction });
                assert(step_by_pos(gs[kk], gs[kk + 1], steps[kk]));
                assert forall|k: int| 0 <= k < soln@.len() implies #[trigger] step_by_pos(gs[k], gs[k + 1], steps[k]) by {
                    if k < kk {
                        assert(gs[k] == gs0[k]);
                        assert(gs[k + 1] == gs0[k + 1]);
                    }
                }
                assert forall|k: int| 0 <= k < gs.len() implies #[trigger] gs[k].wf() by {
                    if k < gs0.len() {
                        assert(gs[k] == gs0[k]);
                    }
                }
                assert forall|hs: Seq<Game>| #[trigger] replay_through(self.game, steps, hs) implies hs[soln@.len() as int].same_state(&game) by {
                    assert(hs[kk].same_state(&g0));
                    assert(step_by_pos(hs[kk], hs[kk + 1], steps[kk]));
                    let idx = choose|idx: int|
                        0 <= idx < hs[kk].box_list().len() && hs[kk].box_list()[idx] == steps[kk].box_pos
                            && #[trigger] push_step(hs[kk], hs[kk + 1], Push { box_index: Index(idx as u8), direction: steps[kk].direction });
                    g0.lemma_wf_core();
                    g0.lemma_wf();
                    hs[kk].lemma_wf_core();
                    hs[kk].lemma_wf();
                    assert((idx as u8) as int == idx);
                    assert(g0.box_list().no_duplicates());
                    assert(idx == push.box_index.0);
                    lemma_push_step_same(g0, game, hs[kk], hs[kk + 1], push);
                }
            }
            i = i + 1;
        }
        let nr = reverse_soln.len();
        let mut j: usize = 0;
        while j < nr
            invariant
                nr == reverse_soln@.len(),
                j <= nr,
                game.wf(),
                game.grounded(),
                gs.len() == soln@.len() + 1,
                gs[0].same_state(&self.game),
                forall|k: int| 0 <= k < soln@.len() ==> #[trigger] push_step(gs[k], gs[k + 1], soln@[k]),
                gs[soln@.len() as int] == game,
                forall|k: int| 0 <= k < gs.len() ==> #[trigger] gs[k].wf(),
                steps == joined(forward_soln@, reverse_soln@),
                forall|k: int| 0 <= k < soln@.len() ==> #[trigger] step_by_pos(gs[k], gs[k + 1], steps[k]),
                forall|hs: Seq<Game>| #[trigger] replay_through(self.game, steps, hs) ==> hs[soln@.len() as int].same_state(&game),
                soln@.len() == nf + j,
                nf == forward_soln@.len(),
                self.game.wf(),
            decreases nr - j,
        {
            let ghost g0 = game;
            let push = match apply_step(&mut game, reverse_soln[j]) {
                Some(p) => p,
                None => {
                    proof {
                        let k = (nf + j) as int;
                        assert forall|hs: Seq<Game>| !#[trigger] replay_through(self.game, steps, hs) by {
                            if replay_through(self.game, steps, hs) {
                                assert(step_by_pos(hs[k], hs[k + 1], steps[k]));
                                let d = steps[k].direction;
                                let idx = choose|idx: int|
                                    0 <= idx < hs[k].box_list().len() && hs[k].box_list()[idx] == steps[k].box_pos
                                        && #[trigger] push_step(hs[k], hs[k + 1], Push { box_index: Index(idx as u8), direction: d });
                                lemma_dir_num(d);
                                hs[k].lemma_wf_core();
                                hs[k].lemma_wf();
                                assert((idx as u8) as int == idx);
                                assert(reachable_push(&hs[k], (dir_num(d), idx)));
                                lemma_reachable_push_same(hs[k], g0, (dir_num(d), idx));
                                assert(reachable_push(&g0, (dir_num(d), idx)));
                            }
                        }
                    }
                    return None;
                },
            };
            proof {
                assert(steps[(nf + j) as int] == reverse_soln@[j as int]);
            }
            let ghost gs0 = gs;
            let ghost s0 = soln@;
            soln.push(push);
            proof {
                gs = gs.push(game);
                assert forall|k: int| 0 <= k < soln@.len() implies #[trigger] push_step(gs[k], gs[k + 1], soln@[k]) by {
                    if k < s0.len() {
                        assert(gs[k] == gs0[k]);
                        assert(gs[k + 1] == gs0[k + 1]);
                        assert(soln@[k] == s0[k]);
                    } else {
                        assert(gs[k] == g0);
                    }
                }
                let kk = s0.len() as int;
                assert(gs[kk] == g0);
                assert(gs[kk + 1] == game);
                assert(push == Push { box_index: Index(push.box_index.0 as int as u8), direction: steps[kk].direction });
                assert(step_by_pos(gs[kk], gs[kk + 1], steps[kk]));
                assert forall|k: int| 0 <= k < soln@.len() implies #[trigger] step_by_pos(gs[k], gs[k + 1], steps[k]) by {
                    if k < kk {
                        assert(gs[k] == gs0[k]);
                        assert(gs[k + 1] == gs0[k + 1]);
                    }
                }
                assert forall|k: int| 0 <= k < gs.len() implies #[trigger] gs[k].wf() by {
                    if k < gs0.len() {
                        assert(gs[k] == gs0[k]);
                    }
                }
                assert forall|hs: Seq<Game>| #[trigger] replay_through(self.game, steps, hs) implies hs[soln@.len() as int].same_state(&game) by {
                    assert(hs[kk].same_state(&g0));
                    assert(step_by_pos(hs[kk], hs[kk + 1], steps[kk]));
                    let idx = choose|idx: int|
                        0 <= idx < hs[kk].box_list().len() && hs[kk].box_list()[idx] == steps[kk].box_pos
                            && #[trigger] push_step(hs[kk], hs[kk + 1], Push { box_index: Index(idx as u8), direction: steps[kk].direction });
                    g0.lemma_wf_core();
                    g0.lemma_wf();
                    hs[kk].lemma_wf_core();
                    hs[kk].lemma_wf();
                    assert((idx as u8) as int == idx);
                    assert(g0.box_list().no_duplicates());
                    assert(idx == push.box_index.0);
                    lemma_push_step_same(g0, game, hs[kk], hs[kk + 1], push);
                }
            }
            j = j + 1;
        }
        if !game.is_solved() {
            proof {
                assert forall|hs: Seq<Game>| !#[trigger] replay_through(self.game, steps, hs) by {
                    if replay_through(self.game, steps, hs) {
                        let last = steps.len() as int;
                        assert(soln@.len() == last);
                        assert(hs[last].same_state(&game));
                        game.lemma_wf_core();
                        game.lemma_wf();
                        assert forall|i: int| 0 <= i < game.box_list().len() implies game.spec_tile(
                            #[trigger] game.box_list()[i],
                        ) == Tile::Goal by {
                            assert(on_grid(game.box_list()[i]));
                            assert(hs[last].box_list()[i] == game.box_list()[i]);
                        }
                    }
                }
            }
            return None;
        }
        proof {
            assert(plays(self.game, soln@, gs));
            assert(replay_through(self.game, steps, gs));
        }
        Some(soln)
    }

    /// The table entry, in the forward search, of the forward search's
    /// current position: the key of its parent, if the table knows it.
    pub closed spec fn forward_parent(&self) -> Option<u64> {
        self.forward.parent_of(position_key(self.forward.keys(), self.forward.spec_game()))
    }

    /// The table entry, in the reverse search, of the reverse search's
    /// current position.
    pub closed spec fn reverse_parent(&self) -> Option<u64> {
        self.reverse.parent_of(position_key(self.reverse.keys(), self.reverse.spec_game()))
    }

    /// The solution through the position where the two searches met.
    fn reconstruct_solution(&self) -> (r: Option<Vec<Push>>)
        requires
            self.inv(),
            self.forward.spec_game().grounded(),
            self.reverse.spec_game().grounded(),
        ensures
            r matches Some(s) ==> solves(self.spec_game(), s@),
            self.forward_parent() is None || self.reverse_parent() is None ==> r is None,
            self.forward_parent() == Some(0u64) && self.reverse_parent() == Some(0u64) ==> (r is Some <==> solved(
                self.spec_game(),
            )),
    {
        proof {
            lemma_replays_empty(self.game);
            assert(joined(Seq::<PushByPos>::empty(), Seq::<PushByPos>::empty()) =~= Seq::<PushByPos>::empty());
        }
        let forward_soln = match self.forward.reconstruct_solution() {
            Some(s) => s,
            None => {
                return None;
            },
        };
        let reverse_soln = match self.reverse.reconstruct_solution() {
            Some(s) => s,
            None => {
                return None;
            },
        };
        proof {
            if self.forward_parent() == Some(0u64) && self.reverse_parent() == Some(0u64) {
                assert(forward_soln@ =~= Seq::<PushByPos>::empty());
                assert(reverse_soln@ =~= Seq::<PushByPos>::empty());
            }
        }
        self.combine_solution(&forward_soln, &reverse_soln)
    }

    /// One expansion by the search that the search type picks for this node
    /// count; the result when the search is over, and whether the forward
    /// search made the expansion. A solution whose replay fails a check ends
    /// the search as a cutoff.
    pub fn step(&mut self, nodes_explored: &mut usize) -> (r: (Option<SolveResult>, bool))
        requires
            old(self).inv(),
            *old(nodes_explored) == 0 || *old(nodes_explored) < old(self).spec_max_nodes(),
        ensures
            final(self).inv(),
            final(self).spec_game() == old(self).spec_game(),
            final(self).spec_max_nodes() == old(self).spec_max_nodes(),
            r.0 is None ==> *final(nodes_explored) == *old(nodes_explored) + 1 && *final(nodes_explored)
                < old(self).spec_max_nodes(),
            r.0 matches Some(SolveResult::Solved(s)) ==> solves(old(self).spec_game(), s@),
            final(self).spec_opts() == old(self).spec_opts(),
            r.1 == picks_forward(old(self).spec_opts().search_type, *old(nodes_explored)),
            old(self).open_empty(r.1) ==> r.0 == Some(SolveResult::Unsolvable) && *final(nodes_explored) == *old(
                nodes_explored,
            ),
            r.0 == Some(SolveResult::Unsolvable) ==> old(self).open_empty(r.1) && final(self).open_empty(r.1)
                && *final(nodes_explored) == *old(nodes_explored),
            r.0 matches Some(SolveResult::Solved(_)) ==> *final(nodes_explored) == *old(nodes_explored),
            r.0 == Some(SolveResult::Cutoff) ==> *final(nodes_explored) == *old(nodes_explored) + 1
                && *final(nodes_explored) >= old(self).spec_max_nodes(),
            r.0 == Some(SolveResult::ReplayFailed) ==> *final(nodes_explored) == *old(nodes_explored)
                && final(self).met(),
            final(self).expanded() == old(self).expanded() + if r.0 == Some(SolveResult::Unsolvable) {
                0nat
            } else {
                1nat
            },
    {
        let is_forward = match self.opts.search_type {
            SearchType::Forward => true,
            SearchType::Reverse => false,
            SearchType::Bidirectional => *nodes_explored % 2 == 0,
        };
        let expand_node = if is_forward {
            self.forward.expand_node(&self.reverse)
        } else {
            self.reverse.expand_node(&self.forward)
        };
        match expand_node {
            ExpandNode::NotDone => {
                if *nodes_explored + 1 >= self.opts.max_nodes_explored {
                    *nodes_explored = *nodes_explored + 1;
                    return (Some(SolveResult::Cutoff), is_forward);
                }
                *nodes_explored = *nodes_explored + 1;
                (None, is_forward)
            },
            ExpandNode::Solved => {
                if is_forward {
                    let cp = self.forward.game.checkpoint();
                    self.reverse.game.restore(&cp);
                    proof {
                        self.lemma_met(true);
                    }
                } else {
                    let cp = self.reverse.game.checkpoint();
                    self.forward.game.restore(&cp);
                    proof {
                        self.lemma_met(false);
                    }
                }
                match self.reconstruct_solution() {
                    Some(soln) => (Some(SolveResult::Solved(soln)), is_forward),
                    None => (Some(SolveResult::ReplayFailed), is_forward),
                }
            },
            ExpandNode::Unsolvable => (Some(SolveResult::Unsolvable), is_forward),
        }
    }

    /// After one search's position is copied into the other, both games are
    /// grounded.
    proof fn lemma_met(&self, from_forward: bool)
        requires
            self.forward.inv(),
            self.reverse.inv(),
            same_walls(self.forward.spec_board(), self.reverse.spec_board()),
            from_forward ==> self.forward.spec_game().grounded() && self.reverse.spec_game().spec_player()
                == self.forward.spec_game().spec_player() && self.reverse.spec_game().box_list()
                == self.forward.spec_game().box_list(),
            !from_forward ==> self.reverse.spec_game().grounded() && self.forward.spec_game().spec_player()
                == self.reverse.spec_game().spec_player() && self.forward.spec_game().box_list()
                == self.reverse.spec_game().box_list(),
        ensures
            self.forward.spec_game().grounded(),
            self.reverse.spec_game().grounded(),
    {
        let f = self.forward.game;
        let r = self.reverse.game;
        let fb = self.forward.board@;
        let rb = self.reverse.board@;
        f.lemma_wf_core();
        f.lemma_wf();
        r.lemma_wf_core();
        r.lemma_wf();
        let (a, b, ab, bb) = if from_forward {
            (f, r, fb, rb)
        } else {
            (r, f, rb, fb)
        };
        assert(on_grid(b.spec_player()));
        assert(b.spec_tile(b.spec_player()) == bb.spec_tile(b.spec_player()));
        assert(a.spec_tile(a.spec_player()) == ab.spec_tile(a.spec_player()));
        assert forall|i: int| 0 <= i < b.box_list().len() implies {
            let c = #[trigger] b.box_list()[i];
            &&& c.0 < b.spec_width()
            &&& c.1 < b.spec_height()
            &&& b.spec_tile(c) != Tile::Wall
        } by {
            let c = b.box_list()[i];
            assert(c == a.box_list()[i]);
            assert(on_grid(c));
            assert(a.spec_tile(c) == ab.spec_tile(c));
            assert(b.spec_tile(c) == bb.spec_tile(c));
        }
        assert forall|i: int| 0 <= i < b.goal_list().len() implies {
            let g = #[trigger] b.goal_list()[i];
            &&& g.0 < b.spec_width()
            &&& g.1 < b.spec_height()
        } by {
            assert(b.goal_list()[i] == bb.goal_list()[i]);
        }
    }

    /// Solves the game: expands nodes until the searches meet, run out of
    /// nodes, or the node limit is reached. Returns the result and the number
    /// of nodes expanded.
    pub fn solve(&mut self) -> (r: (SolveResult, usize))
        requires
            old(self).inv(),
        ensures
            final(self).inv(),
            r.0 matches SolveResult::Solved(s) ==> solves(old(self).spec_game(), s@),
            final(self).spec_opts() == old(self).spec_opts(),
            r.1 <= node_limit(old(self).spec_max_nodes()),
            r.0 is Cutoff <==> r.1 == node_limit(old(self).spec_max_nodes()),
            r.0 is ReplayFailed ==> final(self).met(),
            r.0 is Unsolvable ==> final(self).open_empty(picks_forward(old(self).spec_opts().search_type, r.1)),
            final(self).expanded() == old(self).expanded() + r.1 + if r.0 is Solved || r.0 is ReplayFailed {
                1nat
            } else {
                0nat
            },
    {
        let mut nodes_explored: usize = 0;
        loop
            invariant
                self.expanded() == old(self).expanded() + nodes_explored,
                self.inv(),
                self.spec_game() == old(self).spec_game(),
                self.spec_max_nodes() == old(self).spec_max_nodes(),
                self.spec_opts() == old(self).spec_opts(),
                nodes_explored == 0 || nodes_explored < self.spec_max_nodes(),
                nodes_explored < node_limit(self.spec_max_nodes()),
            decreases self.spec_max_nodes() - nodes_explored,
        {
            let (res, _) = self.step(&mut nodes_explored);
            if let Some(result) = res {
                return (result, nodes_explored);
            }
        }
    }

    /// The current position of one of the searches, as text.
    pub fn trace_text(&self, forward: bool) -> (r: String)
        requires
            self.inv(),
        ensures
            r@ == self.search_game(forward).display_upto(self.search_game(forward).spec_height()),
    {
        if forward {
            self.forward.game.to_text()
        } else {
            self.reverse.game.to_text()
        }
    }

    /// The options the solver was made with.
    pub fn opts(&self) -> (r: &SolverOpts)
        ensures
            *r == self.spec_opts(),
    {
        &self.opts
    }
}

/// The priority of a cost in the open list, which holds priorities below
/// 4096: larger costs share its last priority.
pub fn priority_of(cost: Cost) -> (r: usize)
    ensures
        r < 4096,
        cost.0 < 4096 ==> r == cost.0,
{
    let c = usize::from(cost);
    if c < 4096 {
        c
    } else {
        4095
    }
}

} // verus!
