use arrayvec::ArrayVec;
use vstd::prelude::*;

use crate::bits::{on_grid, Bitboard, Bitvector, LazyBitboard};
pub use crate::bits::{Index, Position};
use crate::moves::{
    dir_at, dir_num, lemma_dir_num, offset, opposite, Direction, Move, Moves, Pull, Push,
};
use crate::plist::{
    plist_as_slice, plist_clear, plist_clone, plist_new, plist_push, plist_set, position_list, square_stack, sstack_len,
    sstack_new, sstack_pop, sstack_push,
};
use crate::reach::{
    cell, closed, count_missing, grid_pos, is_closure, lemma_cell_grid_pos, lemma_count_missing_bound, lemma_count_missing_insert,
    lemma_closure_empty, lemma_closure_extend, lemma_closure_has, lemma_closure_unique, lemma_grid_pos_cell,
    within_closure,
};
use crate::text::{
    board_lines, char_at, increasing, is_board_char, is_box_char, is_goal_char, is_player_char,
    lemma_increasing_no_dup, lemma_max_width, lemma_scan_complete, lemma_scan_facts, lines, listed_before,
    max_width, parse_error, scan_all, scan_board, scan_upto, scanned, string_from_chars, too_many_pieces,
    trim_spaces, ParseError,
};

verus! {

pub const MAX_SIZE: usize = 64;

pub const MAX_BOXES: usize = 64;

/// The index value that marks "no box here".
pub const NO_BOX_VALUE: u8 = 255;

#[derive(Debug, Clone, Copy, PartialEq, Eq, Structural)]
pub enum Tile {
    Wall,
    Floor,
    Goal,
}

/// The square one step from `p` in direction `d` on a board of `w` x `h`
/// squares, if it lies on the board.
pub open spec fn step(w: int, h: int, p: Position, d: Direction) -> Option<Position> {
    let nx = p.0 + offset(d).0;
    let ny = p.1 + offset(d).1;
    if 0 <= nx < w && 0 <= ny < h {
        Some(Position(nx as u8, ny as u8))
    } else {
        None
    }
}

/// The boxes of a game: their positions, a map from squares to box indexes,
/// and the set of boxes that are not on goals.
#[derive(Debug, PartialEq, Eq)]
struct Boxes {
    positions: ArrayVec<Position, 64>,
    // Maps a grid cell (row-major) to the box there, or to NO_BOX_VALUE
    index: Vec<Index>,
    // Boxes that are not on goal squares
    unsolved: Bitvector,
}

impl Boxes {
    spec fn list(&self) -> Seq<Position> {
        position_list(self.positions)
    }

    /// The positions, the index map and the unsolved set agree, given the goal
    /// squares.
    spec fn consistent(&self, tiles: Seq<Tile>) -> bool {
        &&& self.index@.len() == 4096
        &&& self.list().len() <= 64
        &&& forall|i: int| 0 <= i < self.list().len() ==> on_grid(#[trigger] self.list()[i])
        &&& forall|i: int|
            0 <= i < self.list().len() ==> #[trigger] self.index@[cell(self.list()[i])] == Index(
                i as u8,
            )
        &&& forall|k: int|
            0 <= k < 4096 ==> {
                let v = #[trigger] self.index@[k];
                v.0 == NO_BOX_VALUE || (v.0 < self.list().len() && cell(self.list()[v.0 as int])
                    == k)
            }
        &&& self.unsolved@ =~= Set::new(
            |i: int| 0 <= i < self.list().len() && tiles[cell(self.list()[i])] != Tile::Goal,
        )
    }

    fn new() -> (r: Self)
        ensures
            r.list() == Seq::<Position>::empty(),
            forall|g: Seq<Tile>| r.consistent(g),
    {
        let mut index: Vec<Index> = Vec::new();
        let mut k: usize = 0;
        while k < 4096
            invariant
                k <= 4096,
                index@.len() == k,
                forall|j: int| 0 <= j < k ==> #[trigger] index@[j] == Index(NO_BOX_VALUE),
            decreases 4096 - k,
        {
            index.push(Index(NO_BOX_VALUE));
            k = k + 1;
        }
        Boxes { positions: plist_new(), index, unsolved: Bitvector::new() }
    }

    /// Adds a box at `pos`, which holds no box yet.
    fn add(&mut self, pos: Position, is_goal: bool, Ghost(g): Ghost<Seq<Tile>>) -> (r: Index)
        requires
            old(self).consistent(g),
            old(self).list().len() < 64,
            on_grid(pos),
            old(self).index@[cell(pos)].0 == NO_BOX_VALUE,
            is_goal == (g[cell(pos)] == Tile::Goal),
        ensures
            final(self).consistent(g),
            final(self).list() == old(self).list().push(pos),
            r.0 == old(self).list().len(),
    {
        let ghost old_list = self.list();
        let n = plist_as_slice(&self.positions).len();
        let index = Index(n as u8);
        let k = pos.1 as usize * 64 + pos.0 as usize;
        self.index[k] = index;
        plist_push(&mut self.positions, pos);
        if !is_goal {
            self.unsolved.add(index);
        }
        proof {
            let l = self.list();
            assert(l == old_list.push(pos));
            assert forall|i: int| 0 <= i < l.len() implies #[trigger] self.index@[cell(l[i])]
                == Index(i as u8) by {
                if i < old_list.len() {
                    lemma_cell_grid_pos(l[i]);
                    lemma_cell_grid_pos(pos);
                    assert(cell(l[i]) != cell(pos));
                }
            }
            assert forall|j: int| 0 <= j < 4096 implies {
                let v = #[trigger] self.index@[j];
                v.0 == NO_BOX_VALUE || (v.0 < l.len() && cell(l[v.0 as int]) == j)
            } by {
                if j != k {
                    assert(self.index@[j] == old(self).index@[j]);
                }
            }
        }
        index
    }

    /// Moves the box at `from` to the empty square `to`.
    fn move_(
        &mut self,
        from: Position,
        to: Position,
        from_is_goal: bool,
        to_is_goal: bool,
        Ghost(g): Ghost<Seq<Tile>>,
    )
        requires
            old(self).consistent(g),
            on_grid(from),
            on_grid(to),
            old(self).index@[cell(from)].0 != NO_BOX_VALUE,
            old(self).index@[cell(to)].0 == NO_BOX_VALUE,
            from_is_goal == (g[cell(from)] == Tile::Goal),
            to_is_goal == (g[cell(to)] == Tile::Goal),
        ensures
            final(self).consistent(g),
            final(self).list() == old(self).list().update(
                old(self).index@[cell(from)].0 as int,
                to,
            ),
    {
        let kf = from.1 as usize * 64 + from.0 as usize;
        let kt = to.1 as usize * 64 + to.0 as usize;
        let idx = self.index[kf];
        let ghost old_list = self.list();
        proof {
            lemma_cell_grid_pos(from);
            lemma_cell_grid_pos(to);
            assert(old_list[idx.0 as int] == from);
        }
        plist_set(&mut self.positions, idx.0 as usize, to);
        self.index[kf] = Index(NO_BOX_VALUE);
        self.index[kt] = idx;
        // Update unsolved boxes
        if from_is_goal {
            self.unsolved.add(idx);
        }
        if to_is_goal {
            self.unsolved.remove(idx);
        }
        proof {
            let l = self.list();
            assert forall|i: int| 0 <= i < l.len() implies #[trigger] self.index@[cell(l[i])]
                == Index(i as u8) by {
                if i != idx.0 {
                    lemma_cell_grid_pos(l[i]);
                    assert(cell(l[i]) != kf);
                    assert(cell(l[i]) != kt);
                }
            }
            assert forall|j: int| 0 <= j < 4096 implies {
                let v = #[trigger] self.index@[j];
                v.0 == NO_BOX_VALUE || (v.0 < l.len() && cell(l[v.0 as int]) == j)
            } by {
                if j != kf && j != kt {
                    assert(self.index@[j] == old(self).index@[j]);
                    let v = self.index@[j];
                    if v.0 != NO_BOX_VALUE {
                        assert(v.0 != idx.0);
                    }
                }
            }
        }
    }

    /// Removes every box.
    fn clear(&mut self, Ghost(g): Ghost<Seq<Tile>>)
        requires
            old(self).consistent(g),
        ensures
            final(self).consistent(g),
            final(self).list() == Seq::<Position>::empty(),
    {
        let ghost l = self.list();
        let n = plist_as_slice(&self.positions).len();
        let mut i: usize = 0;
        while i < n
            invariant
                l == self.list(),
                n == l.len(),
                i <= n,
                self.index@.len() == 4096,
                l.len() <= 64,
                forall|j: int| 0 <= j < l.len() ==> on_grid(#[trigger] l[j]),
                forall|j: int|
                    i <= j < l.len() ==> #[trigger] self.index@[cell(l[j])] == Index(j as u8),
                forall|k: int|
                    0 <= k < 4096 ==> {
                        let v = #[trigger] self.index@[k];
                        v.0 == NO_BOX_VALUE || (i <= v.0 < l.len() && cell(l[v.0 as int]) == k)
                    },
            decreases n - i,
        {
            let pos = plist_as_slice(&self.positions)[i];
            proof {
                lemma_cell_grid_pos(pos);
            }
            let k = pos.1 as usize * 64 + pos.0 as usize;
            let ghost before = self.index@;
            self.index[k] = Index(NO_BOX_VALUE);
            proof {
                assert forall|j: int| i + 1 <= j < l.len() implies #[trigger] self.index@[cell(
                    l[j],
                )] == Index(j as u8) by {
                    lemma_cell_grid_pos(l[j]);
                    assert(before[cell(l[j])] == Index(j as u8));
                    if cell(l[j]) == k {
                        assert(before[k as int] == Index(i as u8));
                    }
                }
                assert forall|kk: int| 0 <= kk < 4096 implies {
                    let v = #[trigger] self.index@[kk];
                    v.0 == NO_BOX_VALUE || (i + 1 <= v.0 < l.len() && cell(l[v.0 as int]) == kk)
                } by {
                    if kk != k {
                        let v = before[kk];
                        if v.0 == i {
                            assert(cell(l[i as int]) == k);
                        }
                    }
                }
            }
            i = i + 1;
        }
        plist_clear(&mut self.positions);
        self.unsolved = Bitvector::new();
    }
}

/// The player and the box positions of a game, for going back to them.
pub struct Checkpoint {
    player: Position,
    boxes: ArrayVec<Position, 64>,
}

impl Checkpoint {
    #[verifier::type_invariant]
    spec fn inv(&self) -> bool {
        valid_box_list(position_list(self.boxes)) && on_grid(self.player)
    }

    pub closed spec fn spec_player(&self) -> Position {
        self.player
    }

    pub closed spec fn spec_boxes(&self) -> Seq<Position> {
        position_list(self.boxes)
    }
}

/// At most 64 boxes, on the grid, on distinct squares.
pub open spec fn valid_box_list(l: Seq<Position>) -> bool {
    &&& l.len() <= 64
    &&& forall|i: int| 0 <= i < l.len() ==> on_grid(#[trigger] l[i])
    &&& l.no_duplicates()
}

/// The boxes indexed by `keep`, in index order, from the first `n` boxes.
pub open spec fn select(l: Seq<Position>, keep: Set<int>, n: int) -> Seq<Position>
    decreases n,
{
    if n <= 0 {
        Seq::empty()
    } else {
        select(l, keep, n - 1) + if keep.contains(n - 1) {
            seq![l[n - 1]]
        } else {
            Seq::empty()
        }
    }
}

pub proof fn lemma_select_skip(l: Seq<Position>, keep: Set<int>, a: int, b: int)
    requires
        0 <= a <= b,
        forall|j: int| a <= j < b ==> !keep.contains(j),
    ensures
        select(l, keep, b) == select(l, keep, a),
    decreases b - a,
{
    if b > a {
        lemma_select_skip(l, keep, a, b - 1);
        assert(select(l, keep, b) =~= select(l, keep, b - 1));
    }
}

/// A selection from the first `n` boxes leaves out every later box.
pub proof fn lemma_select_excludes(l: Seq<Position>, keep: Set<int>, n: int, m: int)
    requires
        l.no_duplicates(),
        0 <= n <= m < l.len(),
    ensures
        !select(l, keep, n).contains(l[m]),
    decreases n,
{
    if n > 0 {
        lemma_select_excludes(l, keep, n - 1, m);
        let s0 = select(l, keep, n - 1);
        let s = select(l, keep, n);
        if s.contains(l[m]) {
            let k = choose|k: int| 0 <= k < s.len() && s[k] == l[m];
            if k < s0.len() {
                assert(s0[k] == l[m]);
            } else {
                assert(s[k] == l[n - 1]);
            }
        }
    }
}

/// Each kept box is in the selection.
pub proof fn lemma_select_in(l: Seq<Position>, keep: Set<int>, n: int, i: int)
    requires
        0 <= i < n <= l.len(),
        keep.contains(i),
    ensures
        select(l, keep, n).contains(l[i]),
    decreases n,
{
    let s0 = select(l, keep, n - 1);
    if i < n - 1 {
        lemma_select_in(l, keep, n - 1, i);
        let k = choose|k: int| 0 <= k < s0.len() && s0[k] == l[i];
        assert(select(l, keep, n)[k] == s0[k]);
    } else {
        assert(select(l, keep, n)[s0.len() as int] == l[n - 1]);
    }
}

/// Each box of a selection is one of the boxes it was taken from.
pub proof fn lemma_select_from(l: Seq<Position>, keep: Set<int>, n: int, k: int)
    requires
        0 <= n <= l.len(),
        0 <= k < select(l, keep, n).len(),
    ensures
        exists|j: int| 0 <= j < n && keep.contains(j) && l[j] == #[trigger] select(l, keep, n)[k],
    decreases n,
{
    if n > 0 {
        let s0 = select(l, keep, n - 1);
        if k < s0.len() {
            lemma_select_from(l, keep, n - 1, k);
            let j = choose|j: int| 0 <= j < n - 1 && keep.contains(j) && l[j] == #[trigger] select(l, keep, n - 1)[k];
            assert(select(l, keep, n)[k] == s0[k]);
            assert(l[j] == select(l, keep, n)[k]);
        } else {
            assert(select(l, keep, n)[k] == l[n - 1]);
        }
    }
}

/// A selection of distinct boxes has no repeated box.
pub proof fn lemma_select_no_dup(l: Seq<Position>, keep: Set<int>, n: int)
    requires
        0 <= n <= l.len(),
        l.no_duplicates(),
    ensures
        select(l, keep, n).no_duplicates(),
        select(l, keep, n).len() <= n,
    decreases n,
{
    if n > 0 {
        lemma_select_no_dup(l, keep, n - 1);
        if keep.contains(n - 1) {
            lemma_select_excludes(l, keep, n - 1, n - 1);
        }
    }
}

/// A Sokoban position: the board, the player and the boxes.
#[derive(Debug, PartialEq, Eq)]
pub struct Game {
    tiles: Vec<Tile>,
    player: Position,
    width: u8,
    height: u8,
    boxes: Boxes,
    goal_positions: ArrayVec<Position, 64>,
    push_dead_squares: Bitboard,
    pull_dead_squares: Bitboard,
}

impl Game {
    pub closed spec fn spec_tile(&self, p: Position) -> Tile {
        self.tiles@[cell(p)]
    }

    pub closed spec fn spec_player(&self) -> Position {
        self.player
    }

    pub closed spec fn spec_width(&self) -> int {
        self.width as int
    }

    pub closed spec fn spec_height(&self) -> int {
        self.height as int
    }

    /// The box positions, by box index.
    pub closed spec fn box_list(&self) -> Seq<Position> {
        self.boxes.list()
    }

    /// The goal positions, in reading order of the level.
    pub closed spec fn goal_list(&self) -> Seq<Position> {
        position_list(self.goal_positions)
    }

    /// The boxes that are not on goal squares.
    pub closed spec fn spec_unsolved(&self) -> Set<int> {
        self.boxes.unsolved@
    }

    /// The squares from which no box can be pushed onto a goal.
    pub closed spec fn push_dead(&self) -> Set<Position> {
        self.push_dead_squares@
    }

    /// The squares from which no box can be pulled onto a goal.
    pub closed spec fn pull_dead(&self) -> Set<Position> {
        self.pull_dead_squares@
    }

    /// Everything but the player and the boxes is the same, field by field.
    spec fn same_frame(&self, other: &Game) -> bool {
        &&& self.tiles@ == other.tiles@
        &&& self.width == other.width
        &&& self.height == other.height
        &&& self.goal_positions == other.goal_positions
        &&& self.push_dead_squares == other.push_dead_squares
        &&& self.pull_dead_squares == other.pull_dead_squares
    }

    pub open spec fn neighbor(&self, p: Position, d: Direction) -> Option<Position> {
        step(self.spec_width(), self.spec_height(), p, d)
    }

    pub open spec fn has_box(&self, p: Position) -> bool {
        self.box_list().contains(p)
    }

    /// A wall or a box stands on the square.
    pub open spec fn blocked(&self, p: Position) -> bool {
        self.spec_tile(p) == Tile::Wall || self.has_box(p)
    }

    /// Everything but the player and the boxes is the same in both games.
    pub open spec fn same_board(&self, other: &Game) -> bool {
        &&& forall|p: Position| on_grid(p) ==> #[trigger] self.spec_tile(p) == other.spec_tile(p)
        &&& self.spec_width() == other.spec_width()
        &&& self.spec_height() == other.spec_height()
        &&& self.goal_list() == other.goal_list()
        &&& self.push_dead() == other.push_dead()
        &&& self.pull_dead() == other.pull_dead()
    }

    /// The game's parts agree; the dead squares are what `dead_ok` says.
    pub closed spec fn wf(&self) -> bool {
        self.wf_core() && self.dead_ok()
    }

    /// The dead squares are the grid squares outside the closure of the goals
    /// under the push and pull rules.
    pub closed spec fn dead_ok(&self) -> bool {
        let goals = self.goal_list().to_set();
        &&& is_closure(
            board_fn(self.tiles@, self.width as int, self.height as int, StepRule::PushReach),
            goals,
            live_squares(self.push_dead_squares@),
        )
        &&& is_closure(
            board_fn(self.tiles@, self.width as int, self.height as int, StepRule::PullReach),
            goals,
            live_squares(self.pull_dead_squares@),
        )
    }

    /// The game's parts agree, leaving the dead squares aside.
    pub closed spec fn wf_core(&self) -> bool {
        &&& self.tiles@.len() == 4096
        &&& 1 <= self.width <= 64
        &&& 1 <= self.height <= 64
        &&& on_grid(self.player)
        &&& self.boxes.consistent(self.tiles@)
        &&& valid_box_list(self.goal_list())
        &&& forall|i: int|
            0 <= i < self.goal_list().len() ==> self.spec_tile(#[trigger] self.goal_list()[i])
                == Tile::Goal
    }

    /// The boxes are a valid box list, and the unsolved set holds exactly the
    /// boxes that are not on goal squares.
    pub proof fn lemma_wf(&self)
        requires
            self.wf_core(),
        ensures
            valid_box_list(self.box_list()),
            valid_box_list(self.goal_list()),
            self.spec_unsolved() =~= Set::new(
                |i: int| 0 <= i < self.box_list().len() && self.spec_tile(self.box_list()[i])
                    != Tile::Goal,
            ),
            1 <= self.spec_width() <= 64,
            1 <= self.spec_height() <= 64,
            on_grid(self.spec_player()),
            forall|p: Position| #[trigger] self.push_dead().contains(p) ==> on_grid(p),
            forall|p: Position| #[trigger] self.pull_dead().contains(p) ==> on_grid(p),
            forall|i: int|
                0 <= i < self.goal_list().len() ==> self.spec_tile(#[trigger] self.goal_list()[i])
                    == Tile::Goal,
    {
        self.push_dead_squares.lemma_on_grid();
        self.pull_dead_squares.lemma_on_grid();
        let l = self.box_list();
        assert forall|i: int, j: int| 0 <= i < l.len() && 0 <= j < l.len() && i != j implies l[i]
            != l[j] by {
            assert(self.boxes.index@[cell(l[i])] == Index(i as u8));
            assert(self.boxes.index@[cell(l[j])] == Index(j as u8));
        }
    }

    /// The box-index map finds the box on a square.
    proof fn lemma_index(&self, p: Position)
        requires
            self.wf_core(),
            on_grid(p),
        ensures
            self.boxes.index@[cell(p)].0 == NO_BOX_VALUE <==> !self.has_box(p),
            self.boxes.index@[cell(p)].0 != NO_BOX_VALUE ==> self.boxes.index@[cell(p)].0
                < self.box_list().len() && self.box_list()[self.boxes.index@[cell(p)].0 as int]
                == p,
    {
        lemma_cell_grid_pos(p);
        let l = self.box_list();
        let v = self.boxes.index@[cell(p)];
        if v.0 != NO_BOX_VALUE {
            lemma_cell_grid_pos(l[v.0 as int]);
            assert(l[v.0 as int] == p);
        }
        if self.has_box(p) {
            let i = choose|i: int| 0 <= i < l.len() && l[i] == p;
            assert(self.boxes.index@[cell(l[i])] == Index(i as u8));
        }
    }

    pub fn get_tile(&self, pos: Position) -> (r: Tile)
        requires
            self.wf_core(),
            on_grid(pos),
        ensures
            r == self.spec_tile(pos),
    {
        self.tiles[pos.1 as usize * 64 + pos.0 as usize]
    }

    pub fn width(&self) -> (r: u8)
        ensures
            r == self.spec_width(),
    {
        self.width
    }

    pub fn height(&self) -> (r: u8)
        ensures
            r == self.spec_height(),
    {
        self.height
    }

    pub fn box_count(&self) -> (r: usize)
        ensures
            r == self.box_list().len(),
    {
        plist_as_slice(&self.boxes.positions).len()
    }

    /// The game with the player moved to `p`, all else the same.
    pub closed spec fn with_player(&self, p: Position) -> Game {
        Game { player: p, ..*self }
    }

    /// Moving the player twice is moving it once; moving it where it stands
    /// changes nothing; only the player moves.
    pub proof fn lemma_with_player(&self, p: Position, q: Position)
        ensures
            self.with_player(p).with_player(q) == self.with_player(q),
            self.with_player(self.spec_player()) == *self,
            self.with_player(p).spec_player() == p,
            self.with_player(p).box_list() == self.box_list(),
            self.with_player(p).same_board(self),
    {
    }

    pub fn set_player(&mut self, pos: Position)
        requires
            old(self).wf(),
            on_grid(pos),
        ensures
            *final(self) == old(self).with_player(pos),
            final(self).wf(),
            final(self).spec_player() == pos,
            final(self).box_list() == old(self).box_list(),
            final(self).spec_unsolved() == old(self).spec_unsolved(),
            final(self).same_board(old(self)),
    {
        self.player = pos;
    }

    pub fn player(&self) -> (r: Position)
        ensures
            r == self.spec_player(),
    {
        self.player
    }

    pub fn box_positions(&self) -> (r: &[Position])
        ensures
            r@ == self.box_list(),
    {
        plist_as_slice(&self.boxes.positions)
    }

    pub fn goal_positions(&self) -> (r: &[Position])
        ensures
            r@ == self.goal_list(),
    {
        plist_as_slice(&self.goal_positions)
    }

    pub fn unsolved_boxes(&self) -> (r: Bitvector)
        ensures
            r@ == self.spec_unsolved(),
    {
        self.boxes.unsolved
    }

    pub fn is_push_dead_square(&self, pos: Position) -> (r: bool)
        requires
            on_grid(pos),
        ensures
            r == self.push_dead().contains(pos),
    {
        self.push_dead_squares.get(pos)
    }

    pub fn is_pull_dead_square(&self, pos: Position) -> (r: bool)
        requires
            on_grid(pos),
        ensures
            r == self.pull_dead().contains(pos),
    {
        self.pull_dead_squares.get(pos)
    }

    /// The index of the box at `pos`, if there is one.
    pub fn box_index(&self, pos: Position) -> (r: Option<Index>)
        requires
            self.wf_core(),
            on_grid(pos),
        ensures
            r is None <==> !self.has_box(pos),
            r matches Some(i) ==> i.0 < self.box_list().len() && self.box_list()[i.0 as int] == pos,
    {
        proof {
            self.lemma_index(pos);
        }
        let idx = self.boxes.index[pos.1 as usize * 64 + pos.0 as usize];
        if idx.0 == NO_BOX_VALUE {
            None
        } else {
            Some(idx)
        }
    }

    /// The position of a box.
    pub fn box_position(&self, box_index: Index) -> (r: Position)
        requires
            box_index.0 < self.box_list().len(),
        ensures
            r == self.box_list()[box_index.0 as int],
    {
        plist_as_slice(&self.boxes.positions)[box_index.0 as usize]
    }

    /// The square one step from `pos` in direction `dir`, if it is on the board.
    pub fn move_position(&self, pos: Position, dir: Direction) -> (r: Option<Position>)
        ensures
            r == self.neighbor(pos, dir),
    {
        let (dx, dy) = dir.delta();
        let new_x = pos.0 as i32 + dx as i32;
        let new_y = pos.1 as i32 + dy as i32;
        if new_x >= 0 && new_y >= 0 && new_x < self.width as i32 && new_y < self.height as i32 {
            Some(Position(new_x as u8, new_y as u8))
        } else {
            None
        }
    }

    /// Pushes a box one square. The player ends up where the box was.
    pub fn push(&mut self, push: Push)
        requires
            old(self).wf(),
            push.box_index.0 < old(self).box_list().len(),
            old(self).neighbor(old(self).box_list()[push.box_index.0 as int], push.direction) is Some,
            !old(self).blocked(
                old(self).neighbor(
                    old(self).box_list()[push.box_index.0 as int],
                    push.direction,
                )->0,
            ),
        ensures
            final(self).wf(),
            final(self).same_board(old(self)),
            final(self).spec_player() == old(self).box_list()[push.box_index.0 as int],
            final(self).box_list() == old(self).box_list().update(
                push.box_index.0 as int,
                old(self).neighbor(
                    old(self).box_list()[push.box_index.0 as int],
                    push.direction,
                )->0,
            ),
    {
        proof {
            self.lemma_wf();
        }
        let box_pos = self.box_position(push.box_index);
        let new_pos = self.move_position(box_pos, push.direction).unwrap();
        proof {
            self.lemma_index(box_pos);
            self.lemma_index(new_pos);
            assert(self.has_box(box_pos));
        }
        let dest_tile = self.get_tile(new_pos);
        let source_tile = self.get_tile(box_pos);
        let source_is_goal = source_tile == Tile::Goal;
        let dest_is_goal = dest_tile == Tile::Goal;
        // Update box position
        self.boxes.move_(box_pos, new_pos, source_is_goal, dest_is_goal, Ghost(self.tiles@));
        // Update player position to where the box was
        self.player = box_pos;
    }

    /// Pulls a box one square, undoing a push: the box moves in `direction`
    /// and the player ends up one square further on.
    pub fn pull(&mut self, pull: Pull)
        requires
            old(self).wf(),
            pull.box_index.0 < old(self).box_list().len(),
            old(self).neighbor(old(self).box_list()[pull.box_index.0 as int], pull.direction) is Some,
            old(self).neighbor(
                old(self).neighbor(
                    old(self).box_list()[pull.box_index.0 as int],
                    pull.direction,
                )->0,
                pull.direction,
            ) is Some,
            !old(self).has_box(
                old(self).neighbor(
                    old(self).box_list()[pull.box_index.0 as int],
                    pull.direction,
                )->0,
            ),
        ensures
            final(self).wf(),
            final(self).same_board(old(self)),
            final(self).spec_player() == old(self).neighbor(
                old(self).neighbor(
                    old(self).box_list()[pull.box_index.0 as int],
                    pull.direction,
                )->0,
                pull.direction,
            )->0,
            final(self).box_list() == old(self).box_list().update(
                pull.box_index.0 as int,
                old(self).neighbor(
                    old(self).box_list()[pull.box_index.0 as int],
                    pull.direction,
                )->0,
            ),
    {
        proof {
            self.lemma_wf();
        }
        // Current box position (after the push we are undoing)
        let new_pos = self.box_position(pull.box_index);
        // Where the box came from
        let old_pos = self.move_position(new_pos, pull.direction).unwrap();
        // Where the player was before the push
        let player_old_pos = self.move_position(old_pos, pull.direction).unwrap();
        proof {
            self.lemma_index(new_pos);
            self.lemma_index(old_pos);
            assert(self.has_box(new_pos));
        }
        let current_tile = self.get_tile(new_pos);
        let current_is_goal = current_tile == Tile::Goal;
        let old_tile = self.get_tile(old_pos);
        let old_is_goal = old_tile == Tile::Goal;
        // Move box back
        self.boxes.move_(new_pos, old_pos, current_is_goal, old_is_goal, Ghost(self.tiles@));
        // Restore player position
        self.player = player_old_pos;
    }

    /// Whether every box stands on a goal.
    pub fn is_solved(&self) -> (r: bool)
        requires
            self.wf(),
        ensures
            r == (forall|i: int|
                0 <= i < self.box_list().len() ==> self.spec_tile(#[trigger] self.box_list()[i])
                    == Tile::Goal),
    {
        proof {
            self.lemma_wf();
        }
        let r = self.boxes.unsolved.is_empty();
        proof {
            if !r {
                let i = choose|i: int| self.spec_unsolved().contains(i);
                assert(self.spec_unsolved().contains(i));
            } else {
                assert forall|i: int| 0 <= i < self.box_list().len() implies self.spec_tile(
                    #[trigger] self.box_list()[i],
                ) == Tile::Goal by {
                    assert(!self.spec_unsolved().contains(i));
                }
            }
        }
        r
    }

    pub fn checkpoint(&self) -> (r: Checkpoint)
        requires
            self.wf(),
        ensures
            r.spec_player() == self.spec_player(),
            r.spec_boxes() == self.box_list(),
    {
        proof {
            self.lemma_wf();
        }
        Checkpoint { player: self.player, boxes: plist_clone(&self.boxes.positions) }
    }

    /// Puts the player and the boxes back where a checkpoint holds them.
    pub fn restore(&mut self, checkpoint: &Checkpoint)
        requires
            old(self).wf(),
        ensures
            final(self).wf(),
            final(self).same_board(old(self)),
            final(self).spec_player() == checkpoint.spec_player(),
            final(self).box_list() == checkpoint.spec_boxes(),
    {
        proof {
            use_type_invariant(checkpoint);
        }
        self.player = checkpoint.player;
        let ghost g = self.tiles@;
        self.boxes.clear(Ghost(g));
        let cps = plist_as_slice(&checkpoint.boxes);
        let ghost cl = checkpoint.spec_boxes();
        let mut i: usize = 0;
        while i < cps.len()
            invariant
                cps@ == cl,
                valid_box_list(cl),
                i <= cl.len(),
                self.tiles@.len() == 4096,
                g == self.tiles@,
                self.same_frame(old(self)),
                self.player == checkpoint.spec_player(),
                self.boxes.consistent(g),
                self.boxes.list() == cl.take(i as int),
            decreases cl.len() - i,
        {
            let pos = cps[i];
            proof {
                lemma_cell_grid_pos(pos);
                let v = self.boxes.index@[cell(pos)];
                if v.0 != NO_BOX_VALUE {
                    assert(cl[v.0 as int] == pos);
                    lemma_cell_grid_pos(cl[v.0 as int]);
                    assert(cl.take(i as int)[v.0 as int] == cl[v.0 as int]);
                }
            }
            let is_goal = self.tiles[pos.1 as usize * 64 + pos.0 as usize] == Tile::Goal;
            self.boxes.add(pos, is_goal, Ghost(g));
            assert(cl.take(i + 1) == cl.take(i as int).push(pos));
            i = i + 1;
        }
        assert(cl.take(cl.len() as int) == cl);
    }

    /// Keeps only the boxes in `boxes_to_keep`, renumbered in index order.
    pub fn project(&mut self, boxes_to_keep: Bitvector)
        requires
            old(self).wf(),
            forall|i: int| #[trigger] boxes_to_keep@.contains(i) ==> i < old(self).box_list().len(),
        ensures
            final(self).wf(),
            final(self).same_board(old(self)),
            final(self).spec_player() == old(self).spec_player(),
            final(self).box_list() == select(
                old(self).box_list(),
                boxes_to_keep@,
                old(self).box_list().len() as int,
            ),
    {
        proof {
            self.lemma_wf();
            boxes_to_keep.lemma_bounded();
        }
        let ghost l = self.box_list();
        let ghost keep = boxes_to_keep@;
        let ghost g = self.tiles@;
        let mut new_boxes = Boxes::new();
        let mut it = boxes_to_keep.iter();
        let ghost mut m: int = 0;
        loop
            invariant
                l == self.box_list(),
                valid_box_list(l),
                g == self.tiles@,
                self.wf(),
                self.same_frame(old(self)),
                self.player == old(self).player,
                self.boxes == old(self).boxes,
                forall|i: int| #[trigger] keep.contains(i) ==> 0 <= i < l.len(),
                0 <= m <= l.len(),
                it@ =~= keep.filter(|i: int| i >= m),
                new_boxes.consistent(g),
                new_boxes.list() == select(l, keep, m),
            ensures
                new_boxes.consistent(g),
                new_boxes.list() == select(l, keep, l.len() as int),
                self.wf(),
                self.same_frame(old(self)),
                self.player == old(self).player,
                g == self.tiles@,
            decreases it@.len(),
        {
            proof {
                it.lemma_bounded();
            }
            let ghost before = it@;
            match it.next() {
                None => {
                    proof {
                        assert forall|j: int| m <= j < l.len() implies !keep.contains(j) by {
                            if keep.contains(j) {
                                assert(keep.filter(|i: int| i >= m).contains(j));
                            }
                        }
                        lemma_select_skip(l, keep, m, l.len() as int);
                    }
                    break;
                },
                Some(box_idx) => {
                    proof {
                        assert forall|j: int| m <= j < box_idx.0 implies !keep.contains(j) by {
                            if keep.contains(j) {
                                assert(before.contains(j));
                            }
                        }
                        lemma_select_skip(l, keep, m, box_idx.0 as int);
                        assert(select(l, keep, box_idx.0 + 1) =~= select(l, keep, m).push(
                            l[box_idx.0 as int],
                        ));
                        lemma_select_no_dup(l, keep, box_idx.0 as int);
                        lemma_select_excludes(l, keep, m, box_idx.0 as int);
                    }
                    let pos = plist_as_slice(&self.boxes.positions)[box_idx.0 as usize];
                    proof {
                        let s = select(l, keep, m);
                        lemma_cell_grid_pos(pos);
                        let v = new_boxes.index@[cell(pos)];
                        if v.0 != NO_BOX_VALUE {
                            lemma_cell_grid_pos(s[v.0 as int]);
                            assert(s[v.0 as int] == pos);
                            assert(s.contains(pos));
                        }
                    }
                    let is_goal = self.get_tile(pos) == Tile::Goal;
                    new_boxes.add(pos, is_goal, Ghost(g));
                    proof {
                        m = box_idx.0 + 1;
                        assert(it@ =~= keep.filter(|i: int| i >= m));
                    }
                },
            }
        }
        self.boxes = new_boxes;
    }
}

/// How a search over squares may step from one square to the next.
#[derive(Debug, Clone, Copy, PartialEq, Eq, Structural)]
pub enum StepRule {
    /// Squares from which a box can be pushed to the start: the next square is
    /// free of walls, and so is the square beyond it where the player stands.
    PushReach,
    /// Squares from which a box can be pulled to the start: the next square is
    /// free of walls, and so is the square behind the current one.
    PullReach,
    /// Squares the player can walk to: free of walls and of boxes.
    Walk,
}

impl Game {
    /// The square that one step in direction `d` from `p` leads to under a rule.
    pub open spec fn rule_step(&self, rule: StepRule, p: Position, d: Direction) -> Option<Position> {
        match self.neighbor(p, d) {
            None => None,
            Some(to) => if self.spec_tile(to) == Tile::Wall {
                None
            } else {
                match rule {
                    StepRule::PushReach => match self.neighbor(to, d) {
                        Some(pp) => if self.spec_tile(pp) != Tile::Wall {
                            Some(to)
                        } else {
                            None
                        },
                        None => None,
                    },
                    StepRule::PullReach => match self.neighbor(p, opposite(d)) {
                        Some(pp) => if self.spec_tile(pp) != Tile::Wall {
                            Some(to)
                        } else {
                            None
                        },
                        None => None,
                    },
                    StepRule::Walk => if self.has_box(to) {
                        None
                    } else {
                        Some(to)
                    },
                }
            },
        }
    }

    /// The step relation of a rule, with directions given by number.
    pub open spec fn rule_fn(&self, rule: StepRule) -> spec_fn(Position, int) -> Option<Position> {
        |p: Position, k: int| self.rule_step(rule, p, dir_at(k))
    }

    /// A walk from `from` in direction `d` runs into a box at the square `to`
    /// that the search has not entered.
    pub open spec fn box_touch(&self, v: Set<Position>, from: Position, d: Direction) -> bool {
        &&& self.neighbor(from, d) is Some
        &&& self.spec_tile(self.neighbor(from, d)->0) != Tile::Wall
        &&& self.has_box(self.neighbor(from, d)->0)
        &&& !v.contains(self.neighbor(from, d)->0)
    }

    fn should_visit(&self, rule: StepRule, from: Position, to: Position, d: Direction) -> (r: bool)
        requires
            self.wf_core(),
            self.neighbor(from, d) == Some(to),
            self.spec_tile(to) != Tile::Wall,
        ensures
            r == (self.rule_step(rule, from, d) is Some),
    {
        proof {
            self.lemma_wf();
        }
        match rule {
            StepRule::PushReach => {
                // There must be room for the player
                match self.move_position(to, d) {
                    Some(player_pos) => self.get_tile(player_pos) != Tile::Wall,
                    None => false,
                }
            },
            StepRule::PullReach => {
                // There must be room for the player
                match self.move_position(from, d.reverse()) {
                    Some(player_pos) => self.get_tile(player_pos) != Tile::Wall,
                    None => false,
                }
            },
            StepRule::Walk => {
                let b = self.box_index(to);
                b.is_none()
            },
        }
    }

    /// Depth-first search from `start` under a rule, adding the squares it
    /// reaches to `visited`. For the walking rule it also returns, for each
    /// newly reached square and direction, the box that the walk runs into.
    fn dfs(&self, start: Position, visited: &mut LazyBitboard, rule: StepRule) -> (events: Vec<
        (Position, Direction, Index),
    >)
        requires
            self.wf_core(),
            on_grid(start),
            self.spec_tile(start) != Tile::Wall,
            closed(self.rule_fn(rule), old(visited)@),
            rule == StepRule::Walk ==> old(visited)@ =~= Set::<Position>::empty(),
        ensures
            is_closure(self.rule_fn(rule), old(visited)@.insert(start), final(visited)@),
            forall|e: (Position, Direction, Index)| #[trigger] events@.contains(e) ==> {
                &&& rule == StepRule::Walk
                &&& final(visited)@.contains(e.0)
                &&& self.box_touch(final(visited)@, e.0, e.1)
                &&& e.2.0 < self.box_list().len()
                &&& self.box_list()[e.2.0 as int] == self.neighbor(e.0, e.1)->0
            },
            rule == StepRule::Walk ==> forall|from: Position, d: Direction|
                #![trigger final(visited)@.contains(from), self.neighbor(from, d)]
                final(visited)@.contains(from) && self.box_touch(final(visited)@, from, d)
                    ==> exists|i: Index| #[trigger]
                    events@.contains((from, d, i)),
    {
        proof {
            self.lemma_wf();
            lemma_cell_grid_pos(start);
        }
        let ghost step = self.rule_fn(rule);
        let ghost old_v = visited@;
        let ghost base = old_v.insert(start);
        let mut events: Vec<(Position, Direction, Index)> = Vec::new();
        let mut stack: ArrayVec<Position, 4096> = sstack_new();
        let ghost was_visited = visited@.contains(start);
        proof {
            visited.lemma_on_grid();
        }
        visited.set(start);
        sstack_push(&mut stack, start);
        proof {
            lemma_count_missing_bound(visited@, 4096, cell(start));
            visited.lemma_on_grid();
            assert(square_stack(stack)[0] == start);
            assert forall|p: Position| #[trigger] visited@.contains(p) implies old_v.contains(p) || square_stack(stack).contains(p) || (
                    forall|k: int| #![trigger step(p, k)] 0 <= k < 4 && step(p, k) is Some ==> visited@.contains(step(p, k)->0)) by {
                if p == start {
                    assert(square_stack(stack).contains(p));
                }
            }
            if was_visited {
                assert(visited@ =~= old_v);
            }
            assert forall|s: Set<Position>| #[trigger] closed(step, s) && base.subset_of(s) implies visited@.subset_of(s) by {}
            assert(2 * count_missing(visited@, 4096) + square_stack(stack).len() <= 2 * count_missing(old_v, 4096) + 1) by {
                if !was_visited {
                    lemma_count_missing_insert(old_v, start, 4096);
                }
            }
        }
        while sstack_len(&stack) > 0
            invariant
                self.wf_core(),
                step == self.rule_fn(rule),
                base == old_v.insert(start),
                rule == StepRule::Walk ==> old_v =~= Set::<Position>::empty(),
                closed(step, old_v),
                base.subset_of(visited@),
                forall|p: Position| #[trigger] visited@.contains(p) ==> on_grid(p),
                forall|i: int| 0 <= i < square_stack(stack).len() ==> visited@.contains(#[trigger] square_stack(stack)[i]),
                forall|p: Position| #[trigger] visited@.contains(p) ==> old_v.contains(p) || square_stack(stack).contains(p) || (
                    forall|k: int| #![trigger step(p, k)] 0 <= k < 4 && step(p, k) is Some ==> visited@.contains(step(p, k)->0)),
                within_closure(step, base, visited@),
                rule == StepRule::Walk ==> forall|q: Position| #[trigger] visited@.contains(q) ==> q == start || !self.has_box(q),
                forall|e: (Position, Direction, Index)| #[trigger] events@.contains(e) ==> {
                    &&& rule == StepRule::Walk
                    &&& visited@.contains(e.0)
                    &&& self.box_touch(visited@, e.0, e.1)
                    &&& e.2.0 < self.box_list().len()
                    &&& self.box_list()[e.2.0 as int] == self.neighbor(e.0, e.1)->0
                },
                rule == StepRule::Walk ==> forall|from: Position, d: Direction|
                    #![trigger visited@.contains(from), self.neighbor(from, d)]
                    visited@.contains(from) && !square_stack(stack).contains(from) && self.box_touch(visited@, from, d)
                        ==> exists|i: Index| #[trigger] events@.contains((from, d, i)),
                square_stack(stack).len() + count_missing(visited@, 4096) <= 4096,
            decreases 2 * count_missing(visited@, 4096) + square_stack(stack).len(),
        {
            let ghost m0 = 2 * count_missing(visited@, 4096) + square_stack(stack).len();
            let ghost s0 = square_stack(stack);
            let from_pos = sstack_pop(&mut stack).unwrap();
            proof {
                assert(square_stack(stack) == s0.drop_last());
                assert(from_pos == s0.last());
                assert(visited@.contains(s0[s0.len() - 1]));
                assert forall|p: Position| #[trigger] visited@.contains(p) implies old_v.contains(p) || p == from_pos || square_stack(stack).contains(p) || (
                    forall|kk: int| #![trigger step(p, kk)] 0 <= kk < 4 && step(p, kk) is Some ==> visited@.contains(step(p, kk)->0)) by {
                    if s0.contains(p) && p != from_pos {
                        let i = choose|i: int| 0 <= i < s0.len() && s0[i] == p;
                        assert(square_stack(stack)[i] == p);
                    }
                }
                assert forall|from: Position, d: Direction|
                    #![trigger visited@.contains(from), self.neighbor(from, d)]
                    rule == StepRule::Walk && visited@.contains(from) && !square_stack(stack).contains(from) && from != from_pos && self.box_touch(visited@, from, d)
                        implies exists|i: Index| #[trigger] events@.contains((from, d, i)) by {
                    if s0.contains(from) {
                        let i = choose|i: int| 0 <= i < s0.len() && s0[i] == from;
                        if i < s0.len() - 1 {
                            assert(square_stack(stack)[i] == from);
                        }
                    }
                }
            }
            let mut k: usize = 0;
            while k < 4
                invariant
                    0 <= k <= 4,
                    self.wf_core(),
                    step == self.rule_fn(rule),
                    base == old_v.insert(start),
                    rule == StepRule::Walk ==> old_v =~= Set::<Position>::empty(),
                    closed(step, old_v),
                    base.subset_of(visited@),
                    visited@.contains(from_pos),
                    forall|p: Position| #[trigger] visited@.contains(p) ==> on_grid(p),
                    forall|i: int| 0 <= i < square_stack(stack).len() ==> visited@.contains(#[trigger] square_stack(stack)[i]),
                    forall|p: Position| #[trigger] visited@.contains(p) ==> old_v.contains(p) || p == from_pos || square_stack(stack).contains(p) || (
                        forall|kk: int| #![trigger step(p, kk)] 0 <= kk < 4 && step(p, kk) is Some ==> visited@.contains(step(p, kk)->0)),
                    forall|kk: int| #![trigger step(from_pos, kk)] 0 <= kk < k && step(from_pos, kk) is Some ==> visited@.contains(step(from_pos, kk)->0),
                    within_closure(step, base, visited@),
                    2 * count_missing(visited@, 4096) + square_stack(stack).len() < m0,
                    square_stack(stack).len() + count_missing(visited@, 4096) <= 4096,
                    rule == StepRule::Walk ==> forall|q: Position| #[trigger] visited@.contains(q) ==> q == start || !self.has_box(q),
                    forall|e: (Position, Direction, Index)| #[trigger] events@.contains(e) ==> {
                        &&& rule == StepRule::Walk
                        &&& visited@.contains(e.0)
                        &&& self.box_touch(visited@, e.0, e.1)
                        &&& e.2.0 < self.box_list().len()
                        &&& self.box_list()[e.2.0 as int] == self.neighbor(e.0, e.1)->0
                    },
                    rule == StepRule::Walk ==> forall|from: Position, d: Direction|
                        #![trigger visited@.contains(from), self.neighbor(from, d)]
                        visited@.contains(from) && !square_stack(stack).contains(from) && from != from_pos && self.box_touch(visited@, from, d)
                            ==> exists|i: Index| #[trigger] events@.contains((from, d, i)),
                    rule == StepRule::Walk ==> forall|kk: int|
                        #![trigger self.neighbor(from_pos, dir_at(kk))]
                        0 <= kk < k && self.box_touch(visited@, from_pos, dir_at(kk))
                            ==> exists|i: Index| #[trigger] events@.contains((from_pos, dir_at(kk), i)),
                decreases 4 - k,
            {
                let direction = Direction::from_index(k);
                let ghost v0 = visited@;
                if let Some(to_pos) = self.move_position(from_pos, direction) {
                    if self.get_tile(to_pos) != Tile::Wall && !visited.get(to_pos) {
                        if self.should_visit(rule, from_pos, to_pos, direction) {
                            let ghost st0 = square_stack(stack);
                            let ghost ev = events@;
                            proof {
                                visited.lemma_on_grid();
                                lemma_count_missing_insert(visited@, to_pos, 4096);
                                lemma_cell_grid_pos(to_pos);
                            }
                            visited.set(to_pos);
                            sstack_push(&mut stack, to_pos);
                            proof {
                                assert(square_stack(stack).last() == to_pos);
                                assert forall|p: Position| #[trigger] visited@.contains(p) implies old_v.contains(p) || p == from_pos || square_stack(stack).contains(p) || (
                                    forall|kk: int| #![trigger step(p, kk)] 0 <= kk < 4 && step(p, kk) is Some ==> visited@.contains(step(p, kk)->0)) by {
                                    if p == to_pos {
                                        assert(square_stack(stack)[square_stack(stack).len() - 1] == p);
                                    } else if st0.contains(p) {
                                        let i = choose|i: int| 0 <= i < st0.len() && st0[i] == p;
                                        assert(square_stack(stack)[i] == p);
                                    }
                                }
                                assert forall|i: int| 0 <= i < square_stack(stack).len() implies visited@.contains(#[trigger] square_stack(stack)[i]) by {
                                    if i < st0.len() {
                                        assert(square_stack(stack)[i] == st0[i]);
                                    }
                                }
                                if rule == StepRule::Walk {
                                    assert(!self.has_box(to_pos));
                                    assert forall|e: (Position, Direction, Index)| #[trigger] events@.contains(e) implies
                                        !visited@.contains(self.neighbor(e.0, e.1)->0) by {
                                        assert(v0.contains(e.0));
                                        assert(self.has_box(self.neighbor(e.0, e.1)->0));
                                    }
                                    assert forall|from: Position, d: Direction|
                                        #![trigger visited@.contains(from), self.neighbor(from, d)]
                                        visited@.contains(from) && !square_stack(stack).contains(from) && from != from_pos && self.box_touch(visited@, from, d)
                                            implies exists|i: Index| #[trigger] events@.contains((from, d, i)) by {
                                        assert(from != to_pos);
                                        assert(v0.contains(from));
                                        if st0.contains(from) {
                                            let i = choose|i: int| 0 <= i < st0.len() && st0[i] == from;
                                            assert(square_stack(stack)[i] == from);
                                        }
                                        assert(self.box_touch(v0, from, d));
                                        assert(v0.contains(from) && !st0.contains(from) && from != from_pos && self.box_touch(v0, from, d));
                                        assert(exists|i: Index| #[trigger] ev.contains((from, d, i)));
                                        let i = choose|i: Index| #[trigger] ev.contains((from, d, i));
                                        assert(events@ == ev);
                                        assert(events@.contains((from, d, i)));
                                    }
                                    assert forall|kk: int|
                                        #![trigger self.neighbor(from_pos, dir_at(kk))]
                                        0 <= kk < k && self.box_touch(visited@, from_pos, dir_at(kk))
                                            implies exists|i: Index| #[trigger] events@.contains((from_pos, dir_at(kk), i)) by {
                                        assert(self.box_touch(v0, from_pos, dir_at(kk)));
                                        assert(exists|i: Index| #[trigger] ev.contains((from_pos, dir_at(kk), i)));
                                        let i = choose|i: Index| #[trigger] ev.contains((from_pos, dir_at(kk), i));
                                        assert(events@ == ev);
                                        assert(events@.contains((from_pos, dir_at(kk), i)));
                                    }
                                }
                                lemma_count_missing_insert(v0, to_pos, 4096);
                                lemma_cell_grid_pos(to_pos);
                                assert(step(from_pos, k as int) == Some(to_pos));
                                assert forall|s: Set<Position>| #[trigger] closed(step, s) && base.subset_of(s) implies visited@.subset_of(s) by {
                                    assert(v0.subset_of(s));
                                    assert(s.contains(from_pos));
                                    assert(s.contains(step(from_pos, k as int)->0));
                                }
                            }
                        } else if rule == StepRule::Walk {
                            let ghost ev = events@;
                            let b = self.box_index(to_pos).unwrap();
                            events.push((from_pos, direction, b));
                            proof {
                                assert(events@.last() == (from_pos, direction, b));
                                assert(events@[events@.len() - 1] == (from_pos, direction, b));
                                assert forall|e: (Position, Direction, Index)| #[trigger] events@.contains(e) implies
                                    e == (from_pos, direction, b) || ev.contains(e) by {
                                    let i = choose|i: int| 0 <= i < events@.len() && events@[i] == e;
                                    if i < ev.len() {
                                        assert(ev[i] == e);
                                    }
                                }
                                assert forall|from: Position, d: Direction|
                                    #![trigger visited@.contains(from), self.neighbor(from, d)]
                                    visited@.contains(from) && !square_stack(stack).contains(from) && from != from_pos && self.box_touch(visited@, from, d)
                                        implies exists|i: Index| #[trigger] events@.contains((from, d, i)) by {
                                    assert(exists|i: Index| #[trigger] ev.contains((from, d, i)));
                                    let i = choose|i: Index| #[trigger] ev.contains((from, d, i));
                                    let j = choose|j: int| 0 <= j < ev.len() && ev[j] == (from, d, i);
                                    assert(events@[j] == (from, d, i));
                                    assert(events@.contains((from, d, i)));
                                }
                                assert forall|kk: int|
                                    #![trigger self.neighbor(from_pos, dir_at(kk))]
                                    0 <= kk < k + 1 && self.box_touch(visited@, from_pos, dir_at(kk))
                                        implies exists|i: Index| #[trigger] events@.contains((from_pos, dir_at(kk), i)) by {
                                    if kk < k {
                                        let i = choose|i: Index| #[trigger] ev.contains((from_pos, dir_at(kk), i));
                                        let j = choose|j: int| 0 <= j < ev.len() && ev[j] == (from_pos, dir_at(kk), i);
                                        assert(events@[j] == (from_pos, dir_at(kk), i));
                                        assert(events@.contains((from_pos, dir_at(kk), i)));
                                    } else {
                                        assert(dir_at(kk) == direction);
                                        assert(events@.contains((from_pos, direction, b)));
                                    }
                                }
                            }
                        }
                    }
                }
                proof {
                    lemma_dir_num(direction);
                }
                k = k + 1;
            }
            proof {
                if rule == StepRule::Walk {
                    assert forall|from: Position, d: Direction|
                        #![trigger visited@.contains(from), self.neighbor(from, d)]
                        visited@.contains(from) && !square_stack(stack).contains(from) && self.box_touch(visited@, from, d)
                            implies exists|i: Index| #[trigger] events@.contains((from, d, i)) by {
                        if from == from_pos {
                            lemma_dir_num(d);
                            assert(self.neighbor(from_pos, dir_at(dir_num(d))) == self.neighbor(from_pos, d));
                        }
                    }
                }
            }
        }
        events
    }
}

/// The grid squares that are not in `dead`.
pub open spec fn live_squares(dead: Set<Position>) -> Set<Position> {
    Set::new(|p: Position| on_grid(p) && !dead.contains(p))
}

/// A push or pull rule's step on a board given by its tiles and size.
pub open spec fn board_step(
    tiles: Seq<Tile>,
    w: int,
    h: int,
    rule: StepRule,
    p: Position,
    d: Direction,
) -> Option<Position> {
    match step(w, h, p, d) {
        None => None,
        Some(to) => if tiles[cell(to)] == Tile::Wall {
            None
        } else {
            match rule {
                StepRule::PushReach => match step(w, h, to, d) {
                    Some(pp) => if tiles[cell(pp)] != Tile::Wall {
                        Some(to)
                    } else {
                        None
                    },
                    None => None,
                },
                StepRule::PullReach => match step(w, h, p, opposite(d)) {
                    Some(pp) => if tiles[cell(pp)] != Tile::Wall {
                        Some(to)
                    } else {
                        None
                    },
                    None => None,
                },
                StepRule::Walk => None,
            }
        },
    }
}

pub open spec fn board_fn(tiles: Seq<Tile>, w: int, h: int, rule: StepRule) -> spec_fn(
    Position,
    int,
) -> Option<Position> {
    |p: Position, k: int| board_step(tiles, w, h, rule, p, dir_at(k))
}

/// The tile of the board text at a square: `#` a wall, `.`, `*` and `+` goals,
/// anything else (or nothing) floor.
pub open spec fn game_tile(c: Option<char>) -> Tile {
    match c {
        Some(ch) => if ch == '#' {
            Tile::Wall
        } else if ch == '.' || ch == '*' || ch == '+' {
            Tile::Goal
        } else {
            Tile::Floor
        },
        None => Tile::Floor,
    }
}

impl Game {
    proof fn lemma_board_fn(&self, rule: StepRule)
        requires
            rule != StepRule::Walk,
        ensures
            self.rule_fn(rule) == board_fn(self.tiles@, self.width as int, self.height as int, rule),
    {
        assert(self.rule_fn(rule) =~= board_fn(self.tiles@, self.width as int, self.height as int, rule));
    }

    /// The squares outside the dead squares are exactly those from which the
    /// push (or pull) rule reaches a goal.
    pub proof fn lemma_dead_squares(&self)
        requires
            self.wf(),
        ensures
            is_closure(self.rule_fn(StepRule::PushReach), self.goal_list().to_set(), live_squares(self.push_dead())),
            is_closure(self.rule_fn(StepRule::PullReach), self.goal_list().to_set(), live_squares(self.pull_dead())),
    {
        self.lemma_board_fn(StepRule::PushReach);
        self.lemma_board_fn(StepRule::PullReach);
    }

    /// Compute all dead squares from which a box can never reach any goal.
    fn compute_dead_squares(&mut self)
        requires
            old(self).wf_core(),
        ensures
            final(self).wf(),
            final(self).tiles == old(self).tiles,
            final(self).width == old(self).width,
            final(self).height == old(self).height,
            final(self).player == old(self).player,
            final(self).boxes == old(self).boxes,
            final(self).goal_positions == old(self).goal_positions,
    {
        proof {
            self.lemma_wf();
        }
        let mut push_reachable = LazyBitboard::new();
        let mut pull_reachable = LazyBitboard::new();
        let goals = plist_as_slice(&self.goal_positions);
        let ghost gl = self.goal_list();
        let ghost push_fn = self.rule_fn(StepRule::PushReach);
        let ghost pull_fn = self.rule_fn(StepRule::PullReach);
        proof {
            lemma_closure_empty(push_fn);
            lemma_closure_empty(pull_fn);
            assert(gl.take(0).to_set() =~= Set::<Position>::empty());
        }
        let mut i: usize = 0;
        // For each goal, find all squares from which a box reaches it
        while i < goals.len()
            invariant
                goals@ == gl,
                gl == self.goal_list(),
                self.wf_core(),
                valid_box_list(gl),
                forall|j: int| 0 <= j < gl.len() ==> self.spec_tile(#[trigger] gl[j]) == Tile::Goal,
                i <= gl.len(),
                push_fn == self.rule_fn(StepRule::PushReach),
                pull_fn == self.rule_fn(StepRule::PullReach),
                is_closure(push_fn, gl.take(i as int).to_set(), push_reachable@),
                is_closure(pull_fn, gl.take(i as int).to_set(), pull_reachable@),
            decreases gl.len() - i,
        {
            let goal_pos = goals[i];
            proof {
                assert(gl.take(i + 1) == gl.take(i as int).push(goal_pos));
                gl.take(i as int).lemma_push_to_set_commute(goal_pos);
            }
            let ghost v0 = push_reachable@;
            if !push_reachable.get(goal_pos) {
                self.dfs(goal_pos, &mut push_reachable, StepRule::PushReach);
                proof {
                    lemma_closure_extend(push_fn, gl.take(i as int).to_set(), v0, goal_pos, push_reachable@);
                }
            } else {
                proof {
                    lemma_closure_has(push_fn, gl.take(i as int).to_set(), v0, goal_pos);
                }
            }
            let ghost w0 = pull_reachable@;
            if !pull_reachable.get(goal_pos) {
                self.dfs(goal_pos, &mut pull_reachable, StepRule::PullReach);
                proof {
                    lemma_closure_extend(pull_fn, gl.take(i as int).to_set(), w0, goal_pos, pull_reachable@);
                }
            } else {
                proof {
                    lemma_closure_has(pull_fn, gl.take(i as int).to_set(), w0, goal_pos);
                }
            }
            i = i + 1;
        }
        proof {
            self.lemma_board_fn(StepRule::PushReach);
            self.lemma_board_fn(StepRule::PullReach);
        }
        self.push_dead_squares = Bitboard::complement_of(&push_reachable);
        self.pull_dead_squares = Bitboard::complement_of(&pull_reachable);
        proof {
            assert(gl.take(gl.len() as int) == gl);
            push_reachable.lemma_on_grid();
            pull_reachable.lemma_on_grid();
            assert(live_squares(self.push_dead_squares@) =~= push_reachable@);
            assert(live_squares(self.pull_dead_squares@) =~= pull_reachable@);
        }
    }
}

fn tile_of_char(c: char) -> (r: Tile)
    ensures
        r == game_tile(Some(c)),
{
    if c == '#' {
        Tile::Wall
    } else if c == '.' || c == '*' || c == '+' {
        Tile::Goal
    } else {
        Tile::Floor
    }
}

/// The tiles of a board text of at most 64 x 64 characters, by grid cell.
fn build_tiles(ls: &Vec<Vec<char>>) -> (tiles: Vec<Tile>)
    requires
        ls@.len() <= 64,
        forall|y: int| 0 <= y < ls@.len() ==> #[trigger] ls@[y]@.len() <= 64,
    ensures
        tiles@.len() == 4096,
        forall|p: Position|
            on_grid(p) ==> #[trigger] tiles@[cell(p)] == game_tile(
                char_at(ls@.map_values(|l: Vec<char>| l@), p.0 as int, p.1 as int),
            ),
{
    let ghost v = ls@.map_values(|l: Vec<char>| l@);
    let mut tiles: Vec<Tile> = Vec::new();
    let mut k: usize = 0;
    while k < 4096
        invariant
            k <= 4096,
            tiles@.len() == k,
            forall|j: int| 0 <= j < k ==> #[trigger] tiles@[j] == Tile::Floor,
        decreases 4096 - k,
    {
        tiles.push(Tile::Floor);
        k = k + 1;
    }
    let mut y: usize = 0;
    while y < ls.len()
        invariant
            v == ls@.map_values(|l: Vec<char>| l@),
            ls@.len() <= 64,
            forall|yy: int| 0 <= yy < ls@.len() ==> #[trigger] ls@[yy]@.len() <= 64,
            y <= ls@.len(),
            tiles@.len() == 4096,
            forall|p: Position|
                on_grid(p) ==> #[trigger] tiles@[cell(p)] == if p.1 < y {
                    game_tile(char_at(v, p.0 as int, p.1 as int))
                } else {
                    Tile::Floor
                },
        decreases ls@.len() - y,
    {
        let line = &ls[y];
        let mut x: usize = 0;
        while x < line.len()
            invariant
                v == ls@.map_values(|l: Vec<char>| l@),
                y < ls@.len() <= 64,
                line@ == v[y as int],
                line@.len() <= 64,
                x <= line@.len(),
                tiles@.len() == 4096,
                forall|p: Position|
                    on_grid(p) ==> #[trigger] tiles@[cell(p)] == if p.1 < y || (p.1 == y && p.0 < x) {
                        game_tile(char_at(v, p.0 as int, p.1 as int))
                    } else {
                        Tile::Floor
                    },
            decreases line@.len() - x,
        {
            let t = tile_of_char(line[x]);
            let ghost before = tiles@;
            tiles[y * 64 + x] = t;
            proof {
                let q = Position(x as u8, y as u8);
                assert(cell(q) == y * 64 + x);
                assert forall|p: Position| on_grid(p) implies #[trigger] tiles@[cell(p)] == if p.1 < y || (p.1 == y && p.0 < x + 1) {
                    game_tile(char_at(v, p.0 as int, p.1 as int))
                } else {
                    Tile::Floor
                } by {
                    lemma_cell_grid_pos(p);
                    if p == q {
                    } else {
                        assert(cell(p) != cell(q));
                        assert(tiles@[cell(p)] == before[cell(p)]);
                    }
                }
            }
            x = x + 1;
        }
        proof {
            assert forall|p: Position| on_grid(p) implies #[trigger] tiles@[cell(p)] == if p.1 < y + 1 {
                game_tile(char_at(v, p.0 as int, p.1 as int))
            } else {
                Tile::Floor
            } by {
                if p.1 == y && p.0 >= x {
                    assert(char_at(v, p.0 as int, p.1 as int) is None);
                }
            }
        }
        y = y + 1;
    }
    proof {
        assert forall|p: Position| on_grid(p) implies #[trigger] tiles@[cell(p)] == game_tile(
            char_at(v, p.0 as int, p.1 as int),
        ) by {
            if p.1 >= y {
                assert(char_at(v, p.0 as int, p.1 as int) is None);
            }
        }
    }
    tiles
}

impl Game {
    /// The game matches a board text: its size, player, boxes, goals and tiles.
    pub open spec fn matches_text(&self, t: Seq<char>) -> bool {
        let ls = lines(t);
        let st = scan_all(ls);
        &&& self.spec_width() == max_width(ls, ls.len() as int)
        &&& self.spec_height() == ls.len()
        &&& st.1 == Some(self.spec_player())
        &&& self.box_list() == st.2
        &&& self.goal_list() == st.3
        &&& forall|p: Position|
            on_grid(p) ==> #[trigger] self.spec_tile(p) == game_tile(
                char_at(ls, p.0 as int, p.1 as int),
            )
    }

    /// Parse a Sokoban board from text format.
    ///
    /// Characters:
    /// - `#` = Wall
    /// - ` ` = Floor (empty space)
    /// - `.` = Goal (target location for boxes)
    /// - `$` = Box
    /// - `@` = Player
    /// - `*` = Box on goal
    /// - `+` = Player on goal
    pub fn from_text(text: &str) -> (r: Result<Self, ParseError>)
        requires
            !too_many_pieces(text@, 64),
        ensures
            match r {
                Err(e) => parse_error(text@) == Some(e),
                Ok(g) => parse_error(text@) is None && g.wf() && g.matches_text(text@) && g.grounded(),
            },
    {
        let (ls, width) = match board_lines(text) {
            Ok(x) => x,
            Err(e) => {
                return Err(e);
            },
        };
        let ghost v = lines(text@);
        let height = ls.len();
        proof {
            assert forall|y: int| 0 <= y < ls@.len() implies #[trigger] ls@[y]@.len() <= 64 by {
                assert(ls@.map_values(|l: Vec<char>| l@)[y] == ls@[y]@);
            }
        }
        let scan = match scan_board(&ls) {
            Ok(s) => s,
            Err(e) => {
                return Err(e);
            },
        };
        let ghost st = scan_all(v);
        proof {
            lemma_scan_facts(v, v.len() - 1, v[v.len() - 1].len() as int);
            lemma_increasing_no_dup(st.2);
            lemma_increasing_no_dup(st.3);
        }
        let player = match scan.player {
            Some(p) => p,
            None => {
                return Err(ParseError::NoPlayer);
            },
        };
        // Validate that the number of goals matches the number of boxes
        if scan.goals.len() != scan.boxes.len() {
            return Err(ParseError::CountMismatch(scan.goals.len(), scan.boxes.len()));
        }
        let tiles = build_tiles(&ls);
        let mut boxes = Boxes::new();
        let mut i: usize = 0;
        while i < scan.boxes.len()
            invariant
                scan.boxes@ == st.2,
                st.2.len() <= 64,
                st.2.no_duplicates(),
                listed_before(v, st.2, 4096, |c: char| is_box_char(c)),
                tiles@.len() == 4096,
                i <= st.2.len(),
                boxes.consistent(tiles@),
                boxes.list() == st.2.take(i as int),
            decreases st.2.len() - i,
        {
            let pos = scan.boxes[i];
            proof {
                lemma_cell_grid_pos(pos);
                let w = boxes.index@[cell(pos)];
                if w.0 != NO_BOX_VALUE {
                    let q = boxes.list()[w.0 as int];
                    lemma_cell_grid_pos(q);
                    assert(q == st.2[w.0 as int]);
                }
            }
            let is_goal = tiles[pos.1 as usize * 64 + pos.0 as usize] == Tile::Goal;
            boxes.add(pos, is_goal, Ghost(tiles@));
            assert(st.2.take(i + 1) == st.2.take(i as int).push(pos));
            i = i + 1;
        }
        assert(st.2.take(st.2.len() as int) == st.2);
        let mut goal_positions = plist_new();
        let mut j: usize = 0;
        while j < scan.goals.len()
            invariant
                scan.goals@ == st.3,
                st.3.len() <= 64,
                j <= st.3.len(),
                position_list(goal_positions) == st.3.take(j as int),
            decreases st.3.len() - j,
        {
            plist_push(&mut goal_positions, scan.goals[j]);
            assert(st.3.take(j + 1) == st.3.take(j as int).push(scan.goals@[j as int]));
            j = j + 1;
        }
        assert(st.3.take(st.3.len() as int) == st.3);
        proof {
            lemma_max_width_player(v, player);
        }
        let mut game = Game {
            tiles,
            player,
            width: width as u8,
            height: height as u8,
            boxes,
            goal_positions,
            push_dead_squares: Bitboard::new(),
            pull_dead_squares: Bitboard::new(),
        };
        proof {
            assert forall|k: int| 0 <= k < game.goal_list().len() implies game.spec_tile(
                #[trigger] game.goal_list()[k],
            ) == Tile::Goal by {
                let g = st.3[k];
                assert(on_grid(g));
            }
        }
        game.compute_dead_squares();
        proof {
            let bf = |c: char| is_box_char(c);
            let gf = |c: char| is_goal_char(c);
            assert forall|i: int| 0 <= i < game.box_list().len() implies {
                let b = #[trigger] game.box_list()[i];
                &&& b.0 < game.spec_width()
                &&& b.1 < game.spec_height()
                &&& game.spec_tile(b) != Tile::Wall
            } by {
                let b = st.2[i];
                assert(char_at(v, b.0 as int, b.1 as int) matches Some(c) && bf(c));
                crate::text::lemma_max_width(v, v.len() as int, b.1 as int);
            }
            assert forall|i: int| 0 <= i < game.goal_list().len() implies {
                let g = #[trigger] game.goal_list()[i];
                &&& g.0 < game.spec_width()
                &&& g.1 < game.spec_height()
            } by {
                let g = st.3[i];
                assert(char_at(v, g.0 as int, g.1 as int) matches Some(c) && gf(c));
                crate::text::lemma_max_width(v, v.len() as int, g.1 as int);
            }
            assert(!game.has_box(player)) by {
                if game.box_list().contains(player) {
                    let i = choose|i: int| 0 <= i < game.box_list().len() && game.box_list()[i] == player;
                    let b = st.2[i];
                    assert(char_at(v, b.0 as int, b.1 as int) matches Some(c) && bf(c));
                }
            }
        }
        Ok(game)
    }
}

/// The player's line is at least as long as the player's column.
proof fn lemma_max_width_player(v: Seq<Seq<char>>, p: Position)
    requires
        char_at(v, p.0 as int, p.1 as int) is Some,
    ensures
        max_width(v, v.len() as int) > p.0,
{
    crate::text::lemma_max_width(v, v.len() as int, p.1 as int);
}

/// The character that shows a square: its tile, a box on it, the player on it.
pub open spec fn square_char(t: Tile, has_box: bool, player: bool) -> char {
    if player {
        if t == Tile::Goal {
            '+'
        } else {
            '@'
        }
    } else if has_box {
        if t == Tile::Goal {
            '*'
        } else {
            '$'
        }
    } else {
        match t {
            Tile::Wall => '#',
            Tile::Floor => ' ',
            Tile::Goal => '.',
        }
    }
}

fn square_char_exec(t: Tile, has_box: bool, player: bool) -> (r: char)
    ensures
        r == square_char(t, has_box, player),
{
    if player {
        if t == Tile::Goal {
            '+'
        } else {
            '@'
        }
    } else if has_box {
        if t == Tile::Goal {
            '*'
        } else {
            '$'
        }
    } else {
        match t {
            Tile::Wall => '#',
            Tile::Floor => ' ',
            Tile::Goal => '.',
        }
    }
}

/// The lines of a text, each without its trailing spaces and ended by a line
/// break.
pub open spec fn normal_lines(ls: Seq<Seq<char>>, n: int) -> Seq<char>
    decreases n,
{
    if n <= 0 {
        Seq::empty()
    } else {
        normal_lines(ls, n - 1) + trim_spaces(ls[n - 1]) + seq!['\n']
    }
}

/// Spaces added at the end go when trailing spaces are trimmed.
pub proof fn lemma_trim_padded(s: Seq<char>, s2: Seq<char>)
    requires
        s.len() <= s2.len(),
        forall|i: int| 0 <= i < s.len() ==> s2[i] == s[i],
        forall|i: int| s.len() <= i < s2.len() ==> s2[i] == ' ',
    ensures
        trim_spaces(s2) == trim_spaces(s),
    decreases s2.len(),
{
    if s2.len() > s.len() {
        lemma_trim_padded(s, s2.drop_last());
    } else {
        assert(s2 =~= s);
    }
}

/// A row of a game read from a text prints as the text's line, without its
/// trailing spaces.
proof fn lemma_print_row(g: Game, t: Seq<char>, y: int)
    requires
        parse_error(t) is None,
        g.wf(),
        g.matches_text(t),
        0 <= y < lines(t).len(),
    ensures
        g.display_row(y) == trim_spaces(lines(t)[y]),
{
    let ls = lines(t);
    let n = ls.len() as int;
    let st = scan_all(ls);
    assert(n <= 64);
    assert forall|yy: int| 0 <= yy < ls.len() implies #[trigger] ls[yy].len() <= 64 by {
        lemma_max_width(ls, n, yy);
    }
    lemma_max_width(ls, n, y);
    lemma_scan_complete(ls, n - 1, ls[n - 1].len() as int);
    lemma_scan_facts(ls, n - 1, ls[n - 1].len() as int);
    let w = g.spec_width() as int;
    let row = Seq::new(
        g.spec_width() as nat,
        |x: int|
            {
                let p = Position(x as u8, y as u8);
                square_char(g.spec_tile(p), g.has_box(p), p == g.spec_player())
            },
    );
    let player = g.spec_player();
    assert(st.1 == Some(player));
    assert(char_at(ls, player.0 as int, player.1 as int) matches Some(c) && is_player_char(c));
    assert forall|x: int| 0 <= x < w implies #[trigger] row[x] == if x < ls[y].len() {
        ls[y][x]
    } else {
        ' '
    } by {
        let p = Position(x as u8, y as u8);
        assert(on_grid(p));
        assert(g.spec_tile(p) == game_tile(char_at(ls, x, y)));
        if x < ls[y].len() {
            let c = ls[y][x];
            assert(scanned(ls, x, y, ls[n - 1].len() as int, n - 1));
            assert(is_board_char(c));
            if is_box_char(c) {
                assert(g.has_box(p));
            } else if g.has_box(p) {
                let i = choose|i: int| 0 <= i < g.box_list().len() && g.box_list()[i] == p;
                assert(st.2[i] == p);
            }
            if is_player_char(c) {
                assert(p == player);
            } else {
                assert(p != player);
            }
        } else {
            if g.has_box(p) {
                let i = choose|i: int| 0 <= i < g.box_list().len() && g.box_list()[i] == p;
                assert(st.2[i] == p);
            }
            assert(p != player);
        }
    }
    lemma_trim_padded(ls[y], row);
}

/// Printing a game read from a text gives back the text's lines, each without
/// its trailing spaces and ended by a line break.
pub proof fn lemma_print_read(g: Game, t: Seq<char>)
    requires
        parse_error(t) is None,
        g.wf(),
        g.matches_text(t),
    ensures
        g.display_upto(g.spec_height() as int) == normal_lines(lines(t), lines(t).len() as int),
{
    lemma_print_rows(g, t, lines(t).len() as int);
}

proof fn lemma_print_rows(g: Game, t: Seq<char>, k: int)
    requires
        parse_error(t) is None,
        g.wf(),
        g.matches_text(t),
        0 <= k <= lines(t).len(),
    ensures
        g.display_upto(k) == normal_lines(lines(t), k),
    decreases k,
{
    if k > 0 {
        lemma_print_rows(g, t, k - 1);
        lemma_print_row(g, t, k - 1);
    }
}

impl Game {
    /// Row `y` of the game as text, without trailing spaces.
    pub open spec fn display_row(&self, y: int) -> Seq<char> {
        trim_spaces(
            Seq::new(
                self.spec_width() as nat,
                |x: int|
                    {
                        let p = Position(x as u8, y as u8);
                        square_char(self.spec_tile(p), self.has_box(p), p == self.spec_player())
                    },
            ),
        )
    }

    /// The first `n` rows as text, each ended by a line break.
    pub open spec fn display_upto(&self, n: int) -> Seq<char>
        decreases n,
    {
        if n <= 0 {
            Seq::empty()
        } else {
            self.display_upto(n - 1) + self.display_row(n - 1) + seq!['\n']
        }
    }

    /// The game as text, one line per row, in the format it is read from.
    pub fn to_text(&self) -> (r: String)
        requires
            self.wf(),
        ensures
            r@ == self.display_upto(self.spec_height()),
    {
        proof {
            self.lemma_wf();
        }
        let mut out: Vec<char> = Vec::new();
        let mut y: u8 = 0;
        while y < self.height
            invariant
                self.wf(),
                self.wf_core(),
                y <= self.height,
                out@ == self.display_upto(y as int),
            decreases self.height - y,
        {
            let mut line: Vec<char> = Vec::new();
            let mut x: u8 = 0;
            while x < self.width
                invariant
                    self.wf_core(),
                    y < self.height,
                    x <= self.width,
                    line@ == Seq::new(
                        x as nat,
                        |xx: int|
                            {
                                let p = Position(xx as u8, y);
                                square_char(self.spec_tile(p), self.has_box(p), p == self.spec_player())
                            },
                    ),
                decreases self.width - x,
            {
                let pos = Position(x, y);
                let tile = self.get_tile(pos);
                let has_box = self.box_index(pos).is_some();
                let c = square_char_exec(tile, has_box, pos == self.player);
                line.push(c);
                x = x + 1;
                assert(line@ =~= Seq::new(
                    x as nat,
                    |xx: int|
                        {
                            let p = Position(xx as u8, y);
                            square_char(self.spec_tile(p), self.has_box(p), p == self.spec_player())
                        },
                ));
            }
            let ghost full = line@;
            assert(full =~= Seq::new(
                self.spec_width() as nat,
                |xx: int|
                    {
                        let p = Position(xx as u8, y as u8);
                        square_char(self.spec_tile(p), self.has_box(p), p == self.spec_player())
                    },
            ));
            while line.len() > 0 && line[line.len() - 1] == ' '
                invariant
                    trim_spaces(line@) == trim_spaces(full),
                decreases line@.len(),
            {
                let ghost l0 = line@;
                line.pop();
                assert(line@ == l0.drop_last());
            }
            let mut k: usize = 0;
            let ghost o0 = out@;
            while k < line.len()
                invariant
                    k <= line@.len(),
                    out@ == o0 + line@.take(k as int),
                decreases line@.len() - k,
            {
                out.push(line[k]);
                k = k + 1;
                assert(line@.take(k as int) == line@.take(k - 1).push(line@[k - 1]));
            }
            out.push('\n');
            assert(line@.take(line@.len() as int) == line@);
            assert(out@ =~= self.display_upto(y + 1));
            y = y + 1;
        }
        string_from_chars(&out)
    }
}

/// What the player can reach: the moves that can be made, the squares that
/// can be walked to, and the boxes next to them.
pub struct ReachableSet<T> {
    /// Moves the player can currently make
    pub moves: Moves<T>,
    /// Open squares the player can currently reach
    pub squares: LazyBitboard,
    /// Boxes the player can currently reach
    pub boxes: Bitvector,
}

impl Boxes {
    fn duplicate(&self) -> (r: Self)
        ensures
            r.list() == self.list(),
            r.index@ == self.index@,
            r.unsolved == self.unsolved,
    {
        Boxes { positions: plist_clone(&self.positions), index: self.index.clone(), unsolved: self.unsolved }
    }
}

impl Clone for Game {
    fn clone(&self) -> (r: Self)
        ensures
            self.wf() ==> r.wf(),
            r.same_board(self),
            r.spec_player() == self.spec_player(),
            r.box_list() == self.box_list(),
            r.spec_unsolved() == self.spec_unsolved(),
    {
        let r = Game {
            tiles: self.tiles.clone(),
            player: self.player,
            width: self.width,
            height: self.height,
            boxes: self.boxes.duplicate(),
            goal_positions: plist_clone(&self.goal_positions),
            push_dead_squares: self.push_dead_squares.clone(),
            pull_dead_squares: self.pull_dead_squares.clone(),
        };
        proof {
            assert(r.tiles@ =~= self.tiles@);
            assert(r.boxes.index@ =~= self.boxes.index@);
        }
        r
    }
}

impl Game {
    /// A walk that reaches the squares `sq` runs into box `b` while moving in
    /// direction `d`.
    pub open spec fn reaches_box(&self, sq: Set<Position>, b: int, d: Direction) -> bool {
        exists|from: Position|
            #![trigger sq.contains(from), self.neighbor(from, d)]
            sq.contains(from) && self.box_touch(sq, from, d) && self.neighbor(from, d)->0
                == self.box_list()[b]
    }

    /// Box `b` can be pushed in direction `d`: the square beyond it is free.
    pub open spec fn push_free(&self, b: int, d: Direction) -> bool {
        &&& self.neighbor(self.box_list()[b], d) is Some
        &&& !self.blocked(self.neighbor(self.box_list()[b], d)->0)
    }

    /// A walk that reaches `sq` can pull box `b` in direction `e`: the player
    /// stands next to the box on its `e` side, and the square beyond the
    /// player is free.
    pub open spec fn can_pull(&self, sq: Set<Position>, b: int, e: Direction) -> bool {
        exists|from: Position|
            #![trigger sq.contains(from), self.neighbor(from, opposite(e))]
            sq.contains(from) && self.box_touch(sq, from, opposite(e)) && self.neighbor(
                from,
                opposite(e),
            )->0 == self.box_list()[b] && self.neighbor(from, e) is Some && !self.blocked(
                self.neighbor(from, e)->0,
            )
    }

    /// The squares the player can walk to from `start`.
    pub open spec fn walk_region(&self, start: Position, sq: Set<Position>) -> bool {
        is_closure(self.rule_fn(StepRule::Walk), Set::empty().insert(start), sq)
    }

    fn is_blocked(&self, pos: Position) -> (r: bool)
        requires
            self.wf_core(),
            on_grid(pos),
        ensures
            r == self.blocked(pos),
    {
        self.get_tile(pos) == Tile::Wall || self.box_index(pos).is_some()
    }

    /// The smallest square in reading order that the player can walk to.
    pub fn canonical_player_pos(&self) -> (r: Position)
        requires
            self.wf(),
            self.spec_tile(self.spec_player()) != Tile::Wall,
        ensures
            exists|sq: Set<Position>| #![trigger self.walk_region(self.spec_player(), sq)]
                self.walk_region(self.spec_player(), sq) && sq.contains(r) && forall|q: Position|
                    #[trigger] sq.contains(q) ==> crate::bits::reading_le(r, q),
            is_top_left(r, self.region(self.spec_player())),
    {
        proof {
            self.lemma_wf();
        }
        let mut visited = LazyBitboard::new();
        self.dfs(self.player, &mut visited, StepRule::Walk);
        proof {
            assert(visited@.contains(self.player));
        }
        let r = visited.top_left().unwrap();
        proof {
            assert(Set::<Position>::empty().insert(self.player) =~= Set::<Position>::empty().insert(self.player));
            assert(self.walk_region(self.spec_player(), visited@));
            self.lemma_region_is(self.player, visited@);
        }
        r
    }

    /// The pushes the player can make now, with the squares and boxes it reaches.
    #[verifier::spinoff_prover]
    pub fn compute_pushes(&self) -> (r: ReachableSet<Push>)
        requires
            self.wf(),
            self.spec_tile(self.spec_player()) != Tile::Wall,
        ensures
            self.walk_region(self.spec_player(), r.squares@),
            forall|b: int| #[trigger] r.boxes@.contains(b) <==> 0 <= b < self.box_list().len() && exists|d: Direction|
                #[trigger] self.reaches_box(r.squares@, b, d),
            forall|m: (int, int)| #[trigger] r.moves@.contains(m) <==> {
                &&& 0 <= m.0 < 4
                &&& 0 <= m.1 < self.box_list().len()
                &&& self.reaches_box(r.squares@, m.1, dir_at(m.0))
                &&& self.push_free(m.1, dir_at(m.0))
            },
    {
        proof {
            self.lemma_wf();
        }
        let mut moves: Moves<Push> = Moves::new();
        let mut visited = LazyBitboard::new();
        let mut boxes = Bitvector::new();
        let events = self.dfs(self.player, &mut visited, StepRule::Walk);
        let ghost sq = visited@;
        let ghost l = self.box_list();
        let mut i: usize = 0;
        while i < events.len()
            invariant
                self.wf(),
                l == self.box_list(),
                valid_box_list(l),
                sq == visited@,
                i <= events@.len(),
                forall|e: (Position, Direction, Index)| #[trigger] events@.contains(e) ==> {
                    &&& sq.contains(e.0)
                    &&& self.box_touch(sq, e.0, e.1)
                    &&& e.2.0 < l.len()
                    &&& l[e.2.0 as int] == self.neighbor(e.0, e.1)->0
                },
                forall|b: int| #[trigger] boxes@.contains(b) <==> exists|k: int| 0 <= k < i && #[trigger] events@[k].2.0 == b,
                forall|m: (int, int)| #[trigger] moves@.contains(m) <==> exists|k: int| 0 <= k < i && {
                    let e = #[trigger] events@[k];
                    &&& e.2.0 == m.1
                    &&& dir_num(e.1) == m.0
                    &&& self.push_free(e.2.0 as int, e.1)
                },
            decreases events@.len() - i,
        {
            let (_player_pos, dir, box_idx) = events[i];
            let ghost e = events@[i as int];
            proof {
                assert(events@.contains(e));
            }
            let ghost b0 = boxes@;
            let ghost m0 = moves@;
            boxes.add(box_idx);
            let box_pos = self.box_position(box_idx);
            proof {
                lemma_cell_grid_pos(box_pos);
                lemma_dir_num(dir);
            }
            let mut pushed = false;
            if let Some(dest_pos) = self.move_position(box_pos, dir) {
                if !self.is_blocked(dest_pos) {
                    moves.add(box_idx, dir);
                    pushed = true;
                }
            }
            proof {
                assert(pushed == self.push_free(box_idx.0 as int, dir));
                assert forall|b: int| #[trigger] boxes@.contains(b) <==> exists|k: int| 0 <= k < i + 1 && #[trigger] events@[k].2.0 == b by {
                    if b == box_idx.0 {
                        assert(events@[i as int].2.0 == b);
                    }
                    if exists|k: int| 0 <= k < i + 1 && #[trigger] events@[k].2.0 == b {
                        let k = choose|k: int| 0 <= k < i + 1 && #[trigger] events@[k].2.0 == b;
                        if k < i {
                            assert(b0.contains(b));
                        }
                    }
                }
                assert forall|m: (int, int)| #[trigger] moves@.contains(m) <==> exists|k: int| 0 <= k < i + 1 && {
                    let e = #[trigger] events@[k];
                    &&& e.2.0 == m.1
                    &&& dir_num(e.1) == m.0
                    &&& self.push_free(e.2.0 as int, e.1)
                } by {
                    if pushed && m == (dir_num(dir), box_idx.0 as int) {
                        assert(events@[i as int].2.0 == m.1);
                    }
                    if exists|k: int| 0 <= k < i + 1 && {
                        let e = #[trigger] events@[k];
                        &&& e.2.0 == m.1
                        &&& dir_num(e.1) == m.0
                        &&& self.push_free(e.2.0 as int, e.1)
                    } {
                        let k = choose|k: int| 0 <= k < i + 1 && {
                            let e = #[trigger] events@[k];
                            &&& e.2.0 == m.1
                            &&& dir_num(e.1) == m.0
                            &&& self.push_free(e.2.0 as int, e.1)
                        };
                        if k < i {
                            assert(m0.contains(m));
                        } else {
                            lemma_dir_num(events@[k].1);
                        }
                    }
                }
            }
            i = i + 1;
        }
        proof {
            assert forall|b: int| #[trigger] boxes@.contains(b) <==> 0 <= b < l.len() && exists|d: Direction|
                #[trigger] self.reaches_box(sq, b, d) by {
                if boxes@.contains(b) {
                    let k = choose|k: int| 0 <= k < events@.len() && #[trigger] events@[k].2.0 == b;
                    let e = events@[k];
                    assert(events@.contains(e));
                    assert(self.reaches_box(sq, b, e.1));
                }
                if 0 <= b < l.len() && exists|d: Direction| #[trigger] self.reaches_box(sq, b, d) {
                    let d = choose|d: Direction| #[trigger] self.reaches_box(sq, b, d);
                    let from = choose|from: Position|
                        #![trigger sq.contains(from), self.neighbor(from, d)]
                        sq.contains(from) && self.box_touch(sq, from, d) && self.neighbor(from, d)->0 == l[b];
                    let idx = choose|idx: Index| #[trigger] events@.contains((from, d, idx));
                    let k = choose|k: int| 0 <= k < events@.len() && events@[k] == (from, d, idx);
                    assert(l[idx.0 as int] == l[b]);
                    assert(idx.0 == b);
                    assert(events@[k].2.0 == b);
                }
            }
            assert forall|m: (int, int)| #[trigger] moves@.contains(m) <==> {
                &&& 0 <= m.0 < 4
                &&& 0 <= m.1 < l.len()
                &&& self.reaches_box(sq, m.1, dir_at(m.0))
                &&& self.push_free(m.1, dir_at(m.0))
            } by {
                if moves@.contains(m) {
                    let k = choose|k: int| 0 <= k < events@.len() && {
                        let e = #[trigger] events@[k];
                        &&& e.2.0 == m.1
                        &&& dir_num(e.1) == m.0
                        &&& self.push_free(e.2.0 as int, e.1)
                    };
                    let e = events@[k];
                    assert(events@.contains(e));
                    lemma_dir_num(e.1);
                    assert(dir_at(m.0) == e.1);
                    assert(self.reaches_box(sq, m.1, e.1));
                }
                if 0 <= m.0 < 4 && 0 <= m.1 < l.len() && self.reaches_box(sq, m.1, dir_at(m.0)) && self.push_free(m.1, dir_at(m.0)) {
                    let d = dir_at(m.0);
                    let from = choose|from: Position|
                        #![trigger sq.contains(from), self.neighbor(from, d)]
                        sq.contains(from) && self.box_touch(sq, from, d) && self.neighbor(from, d)->0 == l[m.1];
                    let idx = choose|idx: Index| #[trigger] events@.contains((from, d, idx));
                    let k = choose|k: int| 0 <= k < events@.len() && events@[k] == (from, d, idx);
                    assert(l[idx.0 as int] == l[m.1]);
                    assert(idx.0 == m.1);
                    assert(events@[k].2.0 == m.1);
                    assert(dir_num(d) == m.0);
                }
            }
        }
        ReachableSet { moves, squares: visited, boxes }
    }
}

impl Game {
    /// The pulls the player can make now, with the squares and boxes it reaches.
    #[verifier::spinoff_prover]
    pub fn compute_pulls(&self) -> (r: ReachableSet<Pull>)
        requires
            self.wf(),
            self.spec_tile(self.spec_player()) != Tile::Wall,
        ensures
            self.walk_region(self.spec_player(), r.squares@),
            forall|b: int| #[trigger] r.boxes@.contains(b) <==> 0 <= b < self.box_list().len() && exists|d: Direction|
                #[trigger] self.reaches_box(r.squares@, b, d),
            forall|m: (int, int)| #[trigger] r.moves@.contains(m) <==> {
                &&& 0 <= m.0 < 4
                &&& 0 <= m.1 < self.box_list().len()
                &&& self.can_pull(r.squares@, m.1, dir_at(m.0))
            },
    {
        proof {
            self.lemma_wf();
        }
        let mut moves: Moves<Pull> = Moves::new();
        let mut visited = LazyBitboard::new();
        let mut boxes = Bitvector::new();
        let events = self.dfs(self.player, &mut visited, StepRule::Walk);
        let ghost sq = visited@;
        let ghost l = self.box_list();
        let mut i: usize = 0;
        while i < events.len()
            invariant
                self.wf(),
                l == self.box_list(),
                valid_box_list(l),
                sq == visited@,
                i <= events@.len(),
                forall|e: (Position, Direction, Index)| #[trigger] events@.contains(e) ==> {
                    &&& sq.contains(e.0)
                    &&& self.box_touch(sq, e.0, e.1)
                    &&& e.2.0 < l.len()
                    &&& l[e.2.0 as int] == self.neighbor(e.0, e.1)->0
                },
                forall|b: int| #[trigger] boxes@.contains(b) <==> exists|k: int| 0 <= k < i && #[trigger] events@[k].2.0 == b,
                forall|m: (int, int)| #[trigger] moves@.contains(m) <==> exists|k: int| 0 <= k < i && {
                    let e = #[trigger] events@[k];
                    &&& e.2.0 == m.1
                    &&& dir_num(opposite(e.1)) == m.0
                    &&& self.neighbor(e.0, opposite(e.1)) is Some
                    &&& !self.blocked(self.neighbor(e.0, opposite(e.1))->0)
                },
            decreases events@.len() - i,
        {
            let (player_pos, dir, box_idx) = events[i];
            let ghost e = events@[i as int];
            proof {
                assert(events@.contains(e));
                lemma_dir_num(dir);
            }
            let ghost b0 = boxes@;
            let ghost m0 = moves@;
            boxes.add(box_idx);
            let mut pulled = false;
            if let Some(dest_pos) = self.move_position(player_pos, dir.reverse()) {
                proof {
                    lemma_cell_grid_pos(dest_pos);
                }
                if !self.is_blocked(dest_pos) {
                    moves.add(box_idx, dir.reverse());
                    pulled = true;
                }
            }
            proof {
                assert(pulled == (self.neighbor(e.0, opposite(e.1)) is Some && !self.blocked(self.neighbor(e.0, opposite(e.1))->0)));
                assert forall|b: int| #[trigger] boxes@.contains(b) <==> exists|k: int| 0 <= k < i + 1 && #[trigger] events@[k].2.0 == b by {
                    if b == box_idx.0 {
                        assert(events@[i as int].2.0 == b);
                    }
                    if exists|k: int| 0 <= k < i + 1 && #[trigger] events@[k].2.0 == b {
                        let k = choose|k: int| 0 <= k < i + 1 && #[trigger] events@[k].2.0 == b;
                        if k < i {
                            assert(b0.contains(b));
                        }
                    }
                }
                assert forall|m: (int, int)| #[trigger] moves@.contains(m) <==> exists|k: int| 0 <= k < i + 1 && {
                    let e = #[trigger] events@[k];
                    &&& e.2.0 == m.1
                    &&& dir_num(opposite(e.1)) == m.0
                    &&& self.neighbor(e.0, opposite(e.1)) is Some
                    &&& !self.blocked(self.neighbor(e.0, opposite(e.1))->0)
                } by {
                    if pulled && m == (dir_num(opposite(dir)), box_idx.0 as int) {
                        assert(events@[i as int].2.0 == m.1);
                    }
                    if exists|k: int| 0 <= k < i + 1 && {
                        let e = #[trigger] events@[k];
                        &&& e.2.0 == m.1
                        &&& dir_num(opposite(e.1)) == m.0
                        &&& self.neighbor(e.0, opposite(e.1)) is Some
                        &&& !self.blocked(self.neighbor(e.0, opposite(e.1))->0)
                    } {
                        let k = choose|k: int| 0 <= k < i + 1 && {
                            let e = #[trigger] events@[k];
                            &&& e.2.0 == m.1
                            &&& dir_num(opposite(e.1)) == m.0
                            &&& self.neighbor(e.0, opposite(e.1)) is Some
                            &&& !self.blocked(self.neighbor(e.0, opposite(e.1))->0)
                        };
                        if k < i {
                            assert(m0.contains(m));
                        } else {
                            lemma_dir_num(events@[k].1);
                        }
                    }
                }
            }
            i = i + 1;
        }
        proof {
            assert forall|b: int| #[trigger] boxes@.contains(b) <==> 0 <= b < l.len() && exists|d: Direction|
                #[trigger] self.reaches_box(sq, b, d) by {
                if boxes@.contains(b) {
                    let k = choose|k: int| 0 <= k < events@.len() && #[trigger] events@[k].2.0 == b;
                    let e = events@[k];
                    assert(events@.contains(e));
                    assert(self.reaches_box(sq, b, e.1));
                }
                if 0 <= b < l.len() && exists|d: Direction| #[trigger] self.reaches_box(sq, b, d) {
                    let d = choose|d: Direction| #[trigger] self.reaches_box(sq, b, d);
                    let from = choose|from: Position|
                        #![trigger sq.contains(from), self.neighbor(from, d)]
                        sq.contains(from) && self.box_touch(sq, from, d) && self.neighbor(from, d)->0 == l[b];
                    let idx = choose|idx: Index| #[trigger] events@.contains((from, d, idx));
                    let k = choose|k: int| 0 <= k < events@.len() && events@[k] == (from, d, idx);
                    assert(l[idx.0 as int] == l[b]);
                    assert(idx.0 == b);
                    assert(events@[k].2.0 == b);
                }
            }
            assert forall|m: (int, int)| #[trigger] moves@.contains(m) <==> {
                &&& 0 <= m.0 < 4
                &&& 0 <= m.1 < l.len()
                &&& self.can_pull(sq, m.1, dir_at(m.0))
            } by {
                if moves@.contains(m) {
                    let k = choose|k: int| 0 <= k < events@.len() && {
                        let e = #[trigger] events@[k];
                        &&& e.2.0 == m.1
                        &&& dir_num(opposite(e.1)) == m.0
                        &&& self.neighbor(e.0, opposite(e.1)) is Some
                        &&& !self.blocked(self.neighbor(e.0, opposite(e.1))->0)
                    };
                    let e = events@[k];
                    assert(events@.contains(e));
                    lemma_dir_num(e.1);
                    lemma_dir_num(opposite(e.1));
                    assert(dir_at(m.0) == opposite(e.1));
                    assert(opposite(dir_at(m.0)) == e.1);
                    assert(self.can_pull(sq, m.1, dir_at(m.0)));
                }
                if 0 <= m.0 < 4 && 0 <= m.1 < l.len() && self.can_pull(sq, m.1, dir_at(m.0)) {
                    let ee = dir_at(m.0);
                    let d = opposite(ee);
                    let from = choose|from: Position|
                        #![trigger sq.contains(from), self.neighbor(from, opposite(ee))]
                        sq.contains(from) && self.box_touch(sq, from, opposite(ee)) && self.neighbor(
                            from,
                            opposite(ee),
                        )->0 == l[m.1] && self.neighbor(from, ee) is Some && !self.blocked(
                            self.neighbor(from, ee)->0,
                        );
                    let idx = choose|idx: Index| #[trigger] events@.contains((from, d, idx));
                    let k = choose|k: int| 0 <= k < events@.len() && events@[k] == (from, d, idx);
                    assert(l[idx.0 as int] == l[m.1]);
                    assert(idx.0 == m.1);
                    assert(events@[k].2.0 == m.1);
                    lemma_dir_num(ee);
                    assert(opposite(d) == ee);
                    assert(dir_num(opposite(d)) == m.0);
                }
            }
        }
        ReachableSet { moves, squares: visited, boxes }
    }
}

/// Whether a slice of positions holds `p`.
fn slice_contains(s: &[Position], p: Position) -> (r: bool)
    ensures
        r == s@.contains(p),
{
    let mut i: usize = 0;
    while i < s.len()
        invariant
            i <= s@.len(),
            forall|j: int| 0 <= j < i ==> s@[j] != p,
        decreases s@.len() - i,
    {
        if s[i] == p {
            assert(s@[i as int] == p);
            return true;
        }
        i = i + 1;
    }
    false
}

/// What swapping the boxes and goals of `g` gives: the same size and player,
/// the boxes on the goals, the goals where the boxes stood, the old goal
/// squares floor and the rest of the board as it was.
pub open spec fn swapped(g: Game, r: Game) -> bool {
    &&& r.wf()
    &&& r.spec_width() == g.spec_width()
    &&& r.spec_height() == g.spec_height()
    &&& r.spec_player() == g.spec_player()
    &&& r.box_list() == g.goal_list()
    &&& r.goal_list() == g.box_list()
    &&& forall|p: Position| on_grid(p) ==> #[trigger] r.spec_tile(p) == if g.box_list().contains(p) {
        Tile::Goal
    } else if g.goal_list().contains(p) {
        Tile::Floor
    } else {
        g.spec_tile(p)
    }
}

/// Swapping boxes and goals twice gives back the game, where the goal squares
/// are the goals and the boxes stand on the board off the walls.
pub proof fn lemma_swap_twice(g: Game, r1: Game, r2: Game)
    requires
        g.wf(),
        g.pieces_on_board(),
        forall|p: Position| on_grid(p) && #[trigger] g.spec_tile(p) == Tile::Goal ==> g.goal_list().contains(p),
        swapped(g, r1),
        swapped(r1, r2),
    ensures
        r2.same_state(&g),
{
    g.lemma_wf_core();
    g.lemma_wf();
    r2.lemma_wf_core();
    r2.lemma_wf();
    assert forall|p: Position| on_grid(p) implies #[trigger] r2.spec_tile(p) == g.spec_tile(p) by {
        if g.goal_list().contains(p) {
            let i = choose|i: int| 0 <= i < g.goal_list().len() && g.goal_list()[i] == p;
            assert(g.spec_tile(g.goal_list()[i]) == Tile::Goal);
        } else if g.box_list().contains(p) {
            let i = choose|i: int| 0 <= i < g.box_list().len() && g.box_list()[i] == p;
            assert(g.spec_tile(g.box_list()[i]) != Tile::Wall);
            assert(g.spec_tile(p) != Tile::Goal);
        }
    }
    assert(r2.tiles@ =~= g.tiles@) by {
        assert forall|k: int| 0 <= k < 4096 implies r2.tiles@[k] == g.tiles@[k] by {
            lemma_grid_pos_cell(k);
            assert(r2.spec_tile(grid_pos(k)) == g.spec_tile(grid_pos(k)));
        }
    }
    let gl = g.goal_list().to_set();
    lemma_closure_unique(
        board_fn(g.tiles@, g.width as int, g.height as int, StepRule::PushReach),
        gl,
        live_squares(g.push_dead_squares@),
        live_squares(r2.push_dead_squares@),
    );
    lemma_closure_unique(
        board_fn(g.tiles@, g.width as int, g.height as int, StepRule::PullReach),
        gl,
        live_squares(g.pull_dead_squares@),
        live_squares(r2.pull_dead_squares@),
    );
    assert(r2.push_dead() =~= g.push_dead()) by {
        assert forall|p: Position| r2.push_dead().contains(p) == g.push_dead().contains(p) by {
            if on_grid(p) {
                assert(live_squares(g.push_dead_squares@).contains(p) == live_squares(r2.push_dead_squares@).contains(p));
            }
        }
    }
    assert(r2.pull_dead() =~= g.pull_dead()) by {
        assert forall|p: Position| r2.pull_dead().contains(p) == g.pull_dead().contains(p) by {
            if on_grid(p) {
                assert(live_squares(g.pull_dead_squares@).contains(p) == live_squares(r2.pull_dead_squares@).contains(p));
            }
        }
    }
}

impl Game {
    /// The game with boxes and goals swapped: boxes stand on the goals, and the
    /// squares where the boxes stood become the goals. This is the start of a
    /// backward search.
    pub fn swap_boxes_and_goals(&self) -> (r: Self)
        requires
            self.wf(),
        ensures
            swapped(*self, r),
    {
        proof {
            self.lemma_wf();
        }
        let ghost bl = self.box_list();
        let ghost gl = self.goal_list();
        let new_goal_positions = plist_clone(&self.boxes.positions);
        let new_goals = plist_as_slice(&new_goal_positions);
        let old_goals = plist_as_slice(&self.goal_positions);
        // Update tiles: old goals become floor, old box positions become goals
        let mut tiles = self.tiles.clone();
        assert(tiles@ =~= self.tiles@);
        let mut i: usize = 0;
        while i < old_goals.len()
            invariant
                old_goals@ == gl,
                valid_box_list(gl),
                tiles@.len() == 4096,
                i <= gl.len(),
                forall|p: Position| on_grid(p) ==> #[trigger] tiles@[cell(p)] == if gl.take(i as int).contains(p) {
                    Tile::Floor
                } else {
                    self.spec_tile(p)
                },
            decreases gl.len() - i,
        {
            let g = old_goals[i];
            let ghost before = tiles@;
            tiles[g.1 as usize * 64 + g.0 as usize] = Tile::Floor;
            proof {
                assert(gl.take(i + 1) == gl.take(i as int).push(g));
                assert forall|p: Position| on_grid(p) implies #[trigger] tiles@[cell(p)] == if gl.take(i + 1).contains(p) {
                    Tile::Floor
                } else {
                    self.spec_tile(p)
                } by {
                    lemma_cell_grid_pos(p);
                    lemma_cell_grid_pos(g);
                    if p != g {
                        assert(tiles@[cell(p)] == before[cell(p)]);
                        if gl.take(i + 1).contains(p) {
                            let k = choose|k: int| 0 <= k < i + 1 && #[trigger] gl.take(i + 1)[k] == p;
                            assert(gl.take(i as int)[k] == p);
                        }
                    } else {
                        assert(gl.take(i + 1)[i as int] == p);
                    }
                }
            }
            i = i + 1;
        }
        assert(gl.take(gl.len() as int) == gl);
        let mut j: usize = 0;
        while j < new_goals.len()
            invariant
                new_goals@ == bl,
                valid_box_list(bl),
                tiles@.len() == 4096,
                j <= bl.len(),
                forall|p: Position| on_grid(p) ==> #[trigger] tiles@[cell(p)] == if bl.take(j as int).contains(p) {
                    Tile::Goal
                } else if gl.contains(p) {
                    Tile::Floor
                } else {
                    self.spec_tile(p)
                },
            decreases bl.len() - j,
        {
            let g = new_goals[j];
            let ghost before = tiles@;
            tiles[g.1 as usize * 64 + g.0 as usize] = Tile::Goal;
            proof {
                assert(bl.take(j + 1) == bl.take(j as int).push(g));
                assert forall|p: Position| on_grid(p) implies #[trigger] tiles@[cell(p)] == if bl.take(j + 1).contains(p) {
                    Tile::Goal
                } else if gl.contains(p) {
                    Tile::Floor
                } else {
                    self.spec_tile(p)
                } by {
                    lemma_cell_grid_pos(p);
                    lemma_cell_grid_pos(g);
                    if p != g {
                        assert(tiles@[cell(p)] == before[cell(p)]);
                        if bl.take(j + 1).contains(p) {
                            let k = choose|k: int| 0 <= k < j + 1 && #[trigger] bl.take(j + 1)[k] == p;
                            assert(bl.take(j as int)[k] == p);
                        }
                    } else {
                        assert(bl.take(j + 1)[j as int] == p);
                    }
                }
            }
            j = j + 1;
        }
        assert(bl.take(bl.len() as int) == bl);
        // Build new boxes with positions at goal locations
        let mut boxes = Boxes::new();
        let mut k: usize = 0;
        while k < old_goals.len()
            invariant
                old_goals@ == gl,
                new_goals@ == bl,
                valid_box_list(gl),
                tiles@.len() == 4096,
                forall|p: Position| on_grid(p) ==> #[trigger] tiles@[cell(p)] == if bl.contains(p) {
                    Tile::Goal
                } else if gl.contains(p) {
                    Tile::Floor
                } else {
                    self.spec_tile(p)
                },
                k <= gl.len(),
                boxes.consistent(tiles@),
                boxes.list() == gl.take(k as int),
            decreases gl.len() - k,
        {
            let goal_pos = old_goals[k];
            proof {
                lemma_cell_grid_pos(goal_pos);
                let w = boxes.index@[cell(goal_pos)];
                if w.0 != NO_BOX_VALUE {
                    let q = boxes.list()[w.0 as int];
                    lemma_cell_grid_pos(q);
                    assert(q == gl[w.0 as int]);
                }
            }
            // A box is on a goal if it stands where a box stood before
            let is_goal = slice_contains(new_goals, goal_pos);
            boxes.add(goal_pos, is_goal, Ghost(tiles@));
            assert(gl.take(k + 1) == gl.take(k as int).push(goal_pos));
            k = k + 1;
        }
        assert(gl.take(gl.len() as int) == gl);
        let mut game = Game {
            tiles,
            player: self.player,
            width: self.width,
            height: self.height,
            boxes,
            goal_positions: new_goal_positions,
            push_dead_squares: Bitboard::new(),
            pull_dead_squares: Bitboard::new(),
        };
        proof {
            assert forall|m: int| 0 <= m < game.goal_list().len() implies game.spec_tile(
                #[trigger] game.goal_list()[m],
            ) == Tile::Goal by {
                assert(bl.contains(bl[m]));
            }
        }
        game.compute_dead_squares();
        game
    }
}

/// Pulling a box right back after pushing it gives back the position, when the
/// player stood behind the box for the push: the pull is allowed on the game
/// after the push, and every game that the pull can produce from it has the
/// player and the boxes of the original game on the same board.
impl Game {
    /// Two games agree on the board, the player and the boxes.
    pub open spec fn same_state(&self, other: &Game) -> bool {
        &&& self.same_board(other)
        &&& self.spec_player() == other.spec_player()
        &&& self.box_list() == other.box_list()
    }
}

/// Games that agree on the board, the player and the boxes agree on every
/// move: the neighbours, the blocked squares, the walks and the pushes and
/// pulls the player can make.
pub proof fn lemma_same_state(g1: &Game, g2: &Game)
    requires
        g1.wf_core(),
        g2.wf_core(),
        g1.same_state(g2),
    ensures
        forall|p: Position, d: Direction| #[trigger] g1.neighbor(p, d) == g2.neighbor(p, d),
        forall|p: Position, d: Direction| g1.neighbor(p, d) is Some ==> g1.blocked(g1.neighbor(p, d)->0) == g2.blocked(
            #[trigger] g2.neighbor(p, d)->0,
        ),
        g1.rule_fn(StepRule::Walk) == g2.rule_fn(StepRule::Walk),
        forall|s: Position, sq: Set<Position>| #[trigger] g1.walk_region(s, sq) == g2.walk_region(s, sq),
        forall|sq: Set<Position>, b: int, e: Direction| #[trigger] g1.can_pull(sq, b, e) == g2.can_pull(sq, b, e),
        forall|b: int, d: Direction| #[trigger] g1.push_free(b, d) == g2.push_free(b, d),
{
    assert forall|p: Position, d: Direction| g1.neighbor(p, d) is Some implies g1.blocked(g1.neighbor(p, d)->0) == g2.blocked(
        #[trigger] g2.neighbor(p, d)->0) by {
        g1.lemma_neighbor_on_grid(p, d);
    }
    assert forall|p: Position, k: int| #[trigger] g1.rule_fn(StepRule::Walk)(p, k) == g2.rule_fn(StepRule::Walk)(p, k) by {
        g1.lemma_neighbor_on_grid(p, dir_at(k));
    }
    assert(g1.rule_fn(StepRule::Walk) =~= g2.rule_fn(StepRule::Walk));
    assert forall|sq: Set<Position>, b: int, e: Direction| #[trigger] g1.can_pull(sq, b, e) == g2.can_pull(sq, b, e) by {
        if g1.can_pull(sq, b, e) {
            let from = choose|from: Position|
                #![trigger sq.contains(from), g1.neighbor(from, opposite(e))]
                sq.contains(from) && g1.box_touch(sq, from, opposite(e)) && g1.neighbor(from, opposite(e))->0
                    == g1.box_list()[b] && g1.neighbor(from, e) is Some && !g1.blocked(g1.neighbor(from, e)->0);
            g1.lemma_neighbor_on_grid(from, opposite(e));
            g1.lemma_neighbor_on_grid(from, e);
            assert(g2.box_touch(sq, from, opposite(e)));
            assert(!g2.blocked(g2.neighbor(from, e)->0));
        }
        if g2.can_pull(sq, b, e) {
            let from = choose|from: Position|
                #![trigger sq.contains(from), g2.neighbor(from, opposite(e))]
                sq.contains(from) && g2.box_touch(sq, from, opposite(e)) && g2.neighbor(from, opposite(e))->0
                    == g2.box_list()[b] && g2.neighbor(from, e) is Some && !g2.blocked(g2.neighbor(from, e)->0);
            g1.lemma_neighbor_on_grid(from, opposite(e));
            g1.lemma_neighbor_on_grid(from, e);
            assert(g1.box_touch(sq, from, opposite(e)));
            assert(!g1.blocked(g1.neighbor(from, e)->0));
        }
    }
    assert forall|b: int, d: Direction| #[trigger] g1.push_free(b, d) == g2.push_free(b, d) by {
        g1.lemma_neighbor_on_grid(g1.box_list()[b], d);
    }
}

/// A game that agrees with a grounded game on the board, the player and the
/// boxes is grounded.
pub proof fn lemma_same_state_grounded(g1: &Game, g2: &Game)
    requires
        g1.wf_core(),
        g2.wf_core(),
        g1.same_state(g2),
        g2.grounded(),
    ensures
        g1.grounded(),
{
    g2.lemma_wf();
    assert(on_grid(g2.spec_player()));
    assert forall|i: int| 0 <= i < g1.box_list().len() implies {
        let b = #[trigger] g1.box_list()[i];
        &&& b.0 < g1.spec_width()
        &&& b.1 < g1.spec_height()
        &&& g1.spec_tile(b) != Tile::Wall
    } by {
        assert(on_grid(g2.box_list()[i]));
    }
}

/// Swapping boxes and goals keeps the pieces on the board.
pub proof fn lemma_swap_on_board(g: &Game, r: &Game)
    requires
        g.wf(),
        g.pieces_on_board(),
        r.spec_width() == g.spec_width(),
        r.spec_height() == g.spec_height(),
        r.box_list() == g.goal_list(),
        r.goal_list() == g.box_list(),
        forall|p: Position| on_grid(p) ==> #[trigger] r.spec_tile(p) == if g.box_list().contains(p) {
            Tile::Goal
        } else if g.goal_list().contains(p) {
            Tile::Floor
        } else {
            g.spec_tile(p)
        },
    ensures
        r.pieces_on_board(),
{
    g.lemma_wf();
    assert forall|i: int| 0 <= i < r.box_list().len() implies {
        let b = #[trigger] r.box_list()[i];
        &&& b.0 < r.spec_width()
        &&& b.1 < r.spec_height()
        &&& r.spec_tile(b) != Tile::Wall
    } by {
        let b = g.goal_list()[i];
        assert(g.goal_list().contains(b));
        assert(on_grid(b));
    }
    assert forall|i: int| 0 <= i < r.goal_list().len() implies {
        let q = #[trigger] r.goal_list()[i];
        &&& q.0 < r.spec_width()
        &&& q.1 < r.spec_height()
    } by {
        assert(r.goal_list()[i] == g.box_list()[i]);
    }
}

/// A push keeps the player on a free square and the boxes off the walls.
pub proof fn lemma_push_grounded(g0: &Game, g1: &Game, push: Push)
    requires
        g0.wf(),
        g0.grounded(),
        push.box_index.0 < g0.box_list().len(),
        g0.neighbor(g0.box_list()[push.box_index.0 as int], push.direction) is Some,
        !g0.blocked(g0.neighbor(g0.box_list()[push.box_index.0 as int], push.direction)->0),
        g1.same_board(g0),
        g1.spec_player() == g0.box_list()[push.box_index.0 as int],
        g1.box_list() == g0.box_list().update(
            push.box_index.0 as int,
            g0.neighbor(g0.box_list()[push.box_index.0 as int], push.direction)->0,
        ),
    ensures
        g1.grounded(),
{
    g0.lemma_wf();
    let i = push.box_index.0 as int;
    let l0 = g0.box_list();
    let b = l0[i];
    g0.lemma_neighbor_on_grid(b, push.direction);
    let q = g0.neighbor(b, push.direction)->0;
    assert(on_grid(b));
    assert(g1.spec_tile(b) == g0.spec_tile(b));
    assert(!g1.has_box(b)) by {
        if g1.box_list().contains(b) {
            let j = choose|j: int| 0 <= j < g1.box_list().len() && g1.box_list()[j] == b;
            if j == i {
                assert(q == b);
                assert(g0.has_box(q));
            } else {
                assert(l0[j] == b);
            }
        }
    }
    assert forall|j: int| 0 <= j < g1.box_list().len() implies {
        let c = #[trigger] g1.box_list()[j];
        &&& c.0 < g1.spec_width()
        &&& c.1 < g1.spec_height()
        &&& g1.spec_tile(c) != Tile::Wall
    } by {
        if j == i {
            assert(g1.box_list()[j] == q);
            assert(g0.spec_tile(q) != Tile::Wall);
        } else {
            assert(g1.box_list()[j] == l0[j]);
            assert(on_grid(l0[j]));
        }
    }
}

/// A pull that the player can make meets the pull's requirements.
pub proof fn lemma_pull_grounded_pre(g0: &Game, sq: Set<Position>, pull: Pull)
    requires
        g0.wf(),
        g0.grounded(),
        g0.walk_region(g0.spec_player(), sq),
        pull.box_index.0 < g0.box_list().len(),
        g0.can_pull(sq, pull.box_index.0 as int, pull.direction),
    ensures
        g0.neighbor(g0.box_list()[pull.box_index.0 as int], pull.direction) is Some,
        g0.neighbor(g0.neighbor(g0.box_list()[pull.box_index.0 as int], pull.direction)->0, pull.direction) is Some,
        !g0.has_box(g0.neighbor(g0.box_list()[pull.box_index.0 as int], pull.direction)->0),
{
    g0.lemma_wf();
    g0.lemma_walk_region_free(g0.spec_player(), sq);
    let i = pull.box_index.0 as int;
    let b = g0.box_list()[i];
    let e = pull.direction;
    lemma_dir_num(e);
    let from = choose|from: Position|
        #![trigger sq.contains(from), g0.neighbor(from, opposite(e))]
        sq.contains(from) && g0.box_touch(sq, from, opposite(e)) && g0.neighbor(from, opposite(e))->0 == b
            && g0.neighbor(from, e) is Some && !g0.blocked(g0.neighbor(from, e)->0);
    assert(g0.free_square(from));
    assert(g0.neighbor(b, e) == Some(from));
}

/// A pull that the player can make keeps the player on a free square and
/// the boxes off the walls.
pub proof fn lemma_pull_grounded(g0: &Game, sq: Set<Position>, g1: &Game, pull: Pull)
    requires
        g0.wf(),
        g0.grounded(),
        g0.walk_region(g0.spec_player(), sq),
        pull.box_index.0 < g0.box_list().len(),
        g0.can_pull(sq, pull.box_index.0 as int, pull.direction),
        g1.same_board(g0),
        g1.spec_player() == g0.neighbor(
            g0.neighbor(g0.box_list()[pull.box_index.0 as int], pull.direction)->0,
            pull.direction,
        )->0,
        g1.box_list() == g0.box_list().update(
            pull.box_index.0 as int,
            g0.neighbor(g0.box_list()[pull.box_index.0 as int], pull.direction)->0,
        ),
    ensures
        g0.neighbor(g0.box_list()[pull.box_index.0 as int], pull.direction) is Some,
        g0.neighbor(g0.neighbor(g0.box_list()[pull.box_index.0 as int], pull.direction)->0, pull.direction) is Some,
        !g0.has_box(g0.neighbor(g0.box_list()[pull.box_index.0 as int], pull.direction)->0),
        g1.grounded(),
{
    g0.lemma_wf();
    g0.lemma_walk_region_free(g0.spec_player(), sq);
    let i = pull.box_index.0 as int;
    let l0 = g0.box_list();
    let b = l0[i];
    let e = pull.direction;
    lemma_dir_num(e);
    let from = choose|from: Position|
        #![trigger sq.contains(from), g0.neighbor(from, opposite(e))]
        sq.contains(from) && g0.box_touch(sq, from, opposite(e)) && g0.neighbor(from, opposite(e))->0 == b
            && g0.neighbor(from, e) is Some && !g0.blocked(g0.neighbor(from, e)->0);
    assert(g0.free_square(from));
    assert(g0.neighbor(b, e) == Some(from));
    let q = g0.neighbor(from, e)->0;
    g0.lemma_neighbor_on_grid(from, e);
    g0.lemma_neighbor_on_grid(b, e);
    assert(on_grid(from));
    assert(on_grid(q));
    assert(q != b);
    assert(g1.spec_tile(q) == g0.spec_tile(q));
    assert(!g1.has_box(q)) by {
        if g1.box_list().contains(q) {
            let j = choose|j: int| 0 <= j < g1.box_list().len() && g1.box_list()[j] == q;
            if j == i {
                assert(from == q);
            } else {
                assert(l0[j] == q);
            }
        }
    }
    assert forall|j: int| 0 <= j < g1.box_list().len() implies {
        let c = #[trigger] g1.box_list()[j];
        &&& c.0 < g1.spec_width()
        &&& c.1 < g1.spec_height()
        &&& g1.spec_tile(c) != Tile::Wall
    } by {
        if j == i {
            assert(g1.box_list()[j] == from);
            assert(g0.spec_tile(from) == g1.spec_tile(from));
        } else {
            assert(g1.box_list()[j] == l0[j]);
            assert(on_grid(l0[j]));
        }
    }
}

pub proof fn lemma_pull_undoes_push(g0: &Game, g1: &Game, g2: &Game, push: Push)
    requires
        g0.wf(),
        push.box_index.0 < g0.box_list().len(),
        g0.neighbor(g0.box_list()[push.box_index.0 as int], push.direction) is Some,
        !g0.blocked(g0.neighbor(g0.box_list()[push.box_index.0 as int], push.direction)->0),
        g0.neighbor(g0.box_list()[push.box_index.0 as int], opposite(push.direction)) == Some(
            g0.spec_player(),
        ),
        // g1 is what `push` makes of g0
        g1.wf(),
        g1.same_board(g0),
        g1.spec_player() == g0.box_list()[push.box_index.0 as int],
        g1.box_list() == g0.box_list().update(
            push.box_index.0 as int,
            g0.neighbor(g0.box_list()[push.box_index.0 as int], push.direction)->0,
        ),
        // g2 is what the pull `push.to_pull()` makes of g1
        g2.same_board(g1),
        g2.box_list() == g1.box_list().update(
            push.box_index.0 as int,
            g1.neighbor(g1.box_list()[push.box_index.0 as int], opposite(push.direction))->0,
        ),
        g2.spec_player() == g1.neighbor(
            g1.neighbor(g1.box_list()[push.box_index.0 as int], opposite(push.direction))->0,
            opposite(push.direction),
        )->0,
    ensures
        // the pull's precondition holds on g1
        g1.neighbor(g1.box_list()[push.box_index.0 as int], opposite(push.direction)) is Some,
        g1.neighbor(
            g1.neighbor(g1.box_list()[push.box_index.0 as int], opposite(push.direction))->0,
            opposite(push.direction),
        ) is Some,
        !g1.has_box(g1.neighbor(g1.box_list()[push.box_index.0 as int], opposite(push.direction))->0),
        // and the pull gives back g0
        g2.same_board(g0),
        g2.spec_player() == g0.spec_player(),
        g2.box_list() == g0.box_list(),
{
    g0.lemma_wf();
    g1.lemma_wf();
    let i = push.box_index.0 as int;
    let l0 = g0.box_list();
    let b = l0[i];
    let d = push.direction;
    let q = g0.neighbor(b, d)->0;
    lemma_dir_num(d);
    assert(g1.neighbor(q, opposite(d)) == Some(b));
    assert(g1.box_list()[i] == q);
    let l1 = g1.box_list();
    if l1.contains(b) {
        let j = choose|j: int| 0 <= j < l1.len() && l1[j] == b;
        if j == i {
            assert(q == b);
        } else {
            assert(l0[j] == b);
        }
    }
    assert(g2.box_list() =~= l0);
}

impl Game {
    /// The squares the player can walk to from `p`: those in every set that
    /// holds `p` and is closed under walking.
    pub open spec fn region(&self, p: Position) -> Set<Position> {
        Set::new(
            |y: Position|
                forall|t: Set<Position>|
                    #[trigger] closed(self.rule_fn(StepRule::Walk), t) && t.contains(p) ==> t.contains(y),
        )
    }

    /// A square on the board that holds neither a wall nor a box.
    pub open spec fn free_square(&self, p: Position) -> bool {
        &&& p.0 < self.spec_width()
        &&& p.1 < self.spec_height()
        &&& !self.blocked(p)
    }

    /// A walk over `sq` runs into some box.
    pub open spec fn touches_box(&self, sq: Set<Position>) -> bool {
        exists|from: Position, d: Direction|
            #![trigger sq.contains(from), self.neighbor(from, d)]
            sq.contains(from) && self.box_touch(sq, from, d)
    }

    /// The region that a search computes is the region of its start.
    pub proof fn lemma_region_is(&self, p: Position, sq: Set<Position>)
        requires
            self.walk_region(p, sq),
        ensures
            sq == self.region(p),
    {
        let f = self.rule_fn(StepRule::Walk);
        assert forall|y: Position| sq.contains(y) implies #[trigger] self.region(p).contains(y) by {
            assert forall|t: Set<Position>| #[trigger] closed(f, t) && t.contains(p) implies t.contains(y) by {
                assert(Set::<Position>::empty().insert(p).subset_of(t));
            }
        }
        assert forall|y: Position| #[trigger] self.region(p).contains(y) implies sq.contains(y) by {
            assert(closed(f, sq) && sq.contains(p));
        }
        assert(sq =~= self.region(p));
    }

    /// A region is closed under walking and holds its start.
    proof fn lemma_region_closed(&self, p: Position)
        ensures
            closed(self.rule_fn(StepRule::Walk), self.region(p)),
            self.region(p).contains(p),
    {
        let f = self.rule_fn(StepRule::Walk);
        let r = self.region(p);
        assert forall|x: Position, k: int|
            #![trigger r.contains(x), f(x, k)]
            r.contains(x) && 0 <= k < 4 && f(x, k) is Some implies r.contains(f(x, k)->0) by {
            assert forall|t: Set<Position>| #[trigger] closed(f, t) && t.contains(p) implies t.contains(f(x, k)->0) by {
                assert(t.contains(x));
            }
        }
    }

    /// Walking is reversible between free squares on the board.
    proof fn lemma_walk_back(&self, x: Position, k: int)
        requires
            0 <= k < 4,
            self.free_square(x),
            self.rule_fn(StepRule::Walk)(x, k) is Some,
        ensures
            self.rule_fn(StepRule::Walk)(self.rule_fn(StepRule::Walk)(x, k)->0, dir_num(opposite(dir_at(k)))) == Some(x),
    {
        let d = dir_at(k);
        lemma_dir_num(d);
        lemma_dir_num(opposite(d));
        let y = self.rule_step(StepRule::Walk, x, d)->0;
        assert(self.neighbor(y, opposite(d)) == Some(x));
    }

    /// The player stands on a free square of the board, and the boxes and
    /// goals on squares of the board.
    pub open spec fn grounded(&self) -> bool {
        &&& self.free_square(self.spec_player())
        &&& self.pieces_on_board()
    }

    /// Every box and every goal stands on a square of the board, the boxes
    /// on squares that are not walls.
    pub open spec fn pieces_on_board(&self) -> bool {
        &&& forall|i: int|
            0 <= i < self.box_list().len() ==> {
                let b = #[trigger] self.box_list()[i];
                &&& b.0 < self.spec_width()
                &&& b.1 < self.spec_height()
                &&& self.spec_tile(b) != Tile::Wall
            }
        &&& forall|i: int|
            0 <= i < self.goal_list().len() ==> {
                let g = #[trigger] self.goal_list()[i];
                &&& g.0 < self.spec_width()
                &&& g.1 < self.spec_height()
            }
    }

    /// The first square of a region of free squares is free.
    pub proof fn lemma_region_start_free(&self, r: Position)
        requires
            self.region_start(r),
        ensures
            self.free_square(r),
    {
        let p = choose|p: Position|
            #![trigger self.region(p)]
            self.free_square(p) && self.touches_box(self.region(p)) && is_top_left(r, self.region(p));
        self.lemma_region_free(p);
    }

    /// The squares a walk from a free square reaches are free.
    pub proof fn lemma_walk_region_free(&self, start: Position, sq: Set<Position>)
        requires
            self.free_square(start),
            self.walk_region(start, sq),
        ensures
            forall|q: Position| #[trigger] sq.contains(q) ==> self.free_square(q),
    {
        self.lemma_region_is(start, sq);
        self.lemma_region_free(start);
    }

    /// A neighbour on the board lies on the grid.
    pub proof fn lemma_neighbor_on_grid(&self, p: Position, d: Direction)
        requires
            self.wf_core(),
        ensures
            self.neighbor(p, d) matches Some(q) ==> on_grid(q),
    {
    }

    pub proof fn lemma_wf_core(&self)
        requires
            self.wf(),
        ensures
            self.wf_core(),
    {
    }

    /// Every square of a region lies on the grid, given a start on the grid.
    pub proof fn lemma_region_on_grid(&self, p: Position, y: Position)
        requires
            self.wf_core(),
            on_grid(p),
            self.region(p).contains(y),
        ensures
            on_grid(y),
    {
        let f = self.rule_fn(StepRule::Walk);
        let t = Set::new(|q: Position| on_grid(q));
        assert(closed(f, t)) by {
            assert forall|x: Position, k: int|
                #![trigger t.contains(x), f(x, k)]
                t.contains(x) && 0 <= k < 4 && f(x, k) is Some implies t.contains(f(x, k)->0) by {
            }
        }
        assert(closed(f, t) && t.contains(p));
    }

    /// Every square of a region is free, given a free start.
    pub proof fn lemma_region_free(&self, p: Position)
        requires
            self.free_square(p),
        ensures
            forall|y: Position| #[trigger] self.region(p).contains(y) ==> self.free_square(y),
    {
        let f = self.rule_fn(StepRule::Walk);
        let t = Set::new(|y: Position| self.free_square(y));
        assert(closed(f, t)) by {
            assert forall|x: Position, k: int|
                #![trigger t.contains(x), f(x, k)]
                t.contains(x) && 0 <= k < 4 && f(x, k) is Some implies t.contains(f(x, k)->0) by {
            }
        }
        assert forall|y: Position| #[trigger] self.region(p).contains(y) implies self.free_square(y) by {
            assert(closed(f, t) && t.contains(p));
        }
    }

    /// Regions of free squares are the same for every square in them.
    proof fn lemma_region_symmetric(&self, p: Position, q: Position)
        requires
            self.free_square(p),
            self.region(p).contains(q),
        ensures
            self.region(q) == self.region(p),
    {
        let f = self.rule_fn(StepRule::Walk);
        let rp = self.region(p);
        self.lemma_region_closed(p);
        self.lemma_region_free(p);
        // The squares of rp from whose region p is reachable
        let t = Set::new(|x: Position| rp.contains(x) && self.region(x).contains(p));
        assert(closed(f, t)) by {
            assert forall|x: Position, k: int|
                #![trigger t.contains(x), f(x, k)]
                t.contains(x) && 0 <= k < 4 && f(x, k) is Some implies t.contains(f(x, k)->0) by {
                let y = f(x, k)->0;
                self.lemma_walk_back(x, k);
                self.lemma_region_closed(y);
                lemma_dir_num(opposite(dir_at(k)));
                assert(self.region(y).contains(x));
                // region(x) lies inside region(y), which is closed and holds x
                assert(self.region(y).contains(p)) by {
                    assert(closed(f, self.region(y)) && self.region(y).contains(x));
                }
            }
        }
        self.lemma_region_closed(q);
        assert(self.region(p).contains(p));
        assert(t.contains(p));
        assert(t.contains(q)) by {
            assert(closed(f, t) && t.contains(p));
        }
        assert(self.region(q).contains(p));
        assert forall|y: Position| rp.contains(y) implies #[trigger] self.region(q).contains(y) by {
            assert(closed(f, self.region(q)) && self.region(q).contains(p));
        }
        assert forall|y: Position| #[trigger] self.region(q).contains(y) implies rp.contains(y) by {
            assert(closed(f, rp) && rp.contains(q));
        }
        assert(self.region(q) =~= rp);
    }
}

/// `r` is the first square of `sq` in reading order.
pub open spec fn is_top_left(r: Position, sq: Set<Position>) -> bool {
    sq.contains(r) && forall|q: Position| #[trigger] sq.contains(q) ==> crate::bits::reading_le(r, q)
}

impl Game {
    /// `r` is the first square of the region of some free square, a region
    /// from which a walk runs into a box.
    pub open spec fn region_start(&self, r: Position) -> bool {
        exists|p: Position|
            #![trigger self.region(p)]
            self.free_square(p) && self.touches_box(self.region(p)) && is_top_left(r, self.region(p))
    }
}

/// `p` comes before column `x` of row `y` in reading order.
pub open spec fn scanned_before(p: Position, y: int, x: int) -> bool {
    p.1 < y || (p.1 == y && p.0 < x)
}

impl Game {
    /// Each square of the result is the first square of the region of a free
    /// square, a region that touches a box; no square comes twice.
    spec fn res_sound(&self, res: Seq<Position>) -> bool {
        &&& res.no_duplicates()
        &&& forall|i: int| 0 <= i < res.len() ==> self.region_start(#[trigger] res[i])
    }

    /// The squares already explored are the regions of the free squares
    /// scanned, and the result covers those of them that touch a box.
    spec fn scan_inv(&self, av: Set<Position>, res: Seq<Position>, y: int, x: int) -> bool {
        &&& forall|q: Position| #[trigger] av.contains(q) ==> exists|p: Position|
            #![trigger self.region(p)]
            scanned_before(p, y, x) && self.free_square(p) && self.region(p).contains(q)
        &&& forall|p: Position, q: Position|
            #![trigger self.region(p).contains(q)]
            scanned_before(p, y, x) && self.free_square(p) && self.region(p).contains(q) ==> av.contains(q)
        &&& forall|i: int| 0 <= i < res.len() ==> av.contains(#[trigger] res[i])
        &&& forall|p: Position| #[trigger]
            self.free_square(p) && scanned_before(p, y, x) && self.touches_box(self.region(p)) ==> exists|i: int|
                0 <= i < res.len() && is_top_left(#[trigger] res[i], self.region(p))
    }

    /// A square inside an already explored region adds nothing new.
    proof fn lemma_scan_visited(&self, av: Set<Position>, res: Seq<Position>, y: int, x: int)
        requires
            self.wf(),
            self.scan_inv(av, res, y, x),
            av.contains(Position(x as u8, y as u8)),
            0 <= x < 64,
            0 <= y < 64,
        ensures
            self.scan_inv(av, res, y, x + 1),
    {
        let pos = Position(x as u8, y as u8);
        let p0 = choose|p: Position|
            #![trigger self.region(p)]
            scanned_before(p, y, x) && self.free_square(p) && self.region(p).contains(pos);
        self.lemma_region_free(p0);
        self.lemma_region_symmetric(p0, pos);
        assert forall|q: Position| #[trigger] av.contains(q) implies exists|p: Position|
            #![trigger self.region(p)]
            scanned_before(p, y, x + 1) && self.free_square(p) && self.region(p).contains(q) by {
            let p1 = choose|p: Position|
                #![trigger self.region(p)]
                scanned_before(p, y, x) && self.free_square(p) && self.region(p).contains(q);
            assert(scanned_before(p1, y, x + 1));
        }
        assert forall|p: Position, q: Position|
            #![trigger self.region(p).contains(q)]
            scanned_before(p, y, x + 1) && self.free_square(p) && self.region(p).contains(q) implies av.contains(q) by {
            if p == pos {
                assert(self.region(p0).contains(q));
            }
        }
        assert forall|p: Position| #[trigger]
            self.free_square(p) && scanned_before(p, y, x + 1) && self.touches_box(self.region(p)) implies exists|i: int|
                0 <= i < res.len() && is_top_left(#[trigger] res[i], self.region(p)) by {
            if p == pos {
                assert(self.free_square(p0) && scanned_before(p0, y, x) && self.touches_box(self.region(p0)));
            }
        }
    }

    /// A blocked square adds nothing new.
    proof fn lemma_scan_blocked(&self, av: Set<Position>, res: Seq<Position>, y: int, x: int)
        requires
            self.scan_inv(av, res, y, x),
            !self.free_square(Position(x as u8, y as u8)),
            0 <= x < 64,
            0 <= y < 64,
        ensures
            self.scan_inv(av, res, y, x + 1),
    {
        assert forall|q: Position| #[trigger] av.contains(q) implies exists|p: Position|
            #![trigger self.region(p)]
            scanned_before(p, y, x + 1) && self.free_square(p) && self.region(p).contains(q) by {
            let p1 = choose|p: Position|
                #![trigger self.region(p)]
                scanned_before(p, y, x) && self.free_square(p) && self.region(p).contains(q);
            assert(scanned_before(p1, y, x + 1));
        }
    }

    /// A new region: its squares join the explored ones, and its first square
    /// joins the result when it touches a box.
    proof fn lemma_scan_new(
        &self,
        av: Set<Position>,
        res: Seq<Position>,
        y: int,
        x: int,
        lv: Set<Position>,
        found: bool,
        t: Position,
        res2: Seq<Position>,
    )
        requires
            self.wf(),
            self.scan_inv(av, res, y, x),
            0 <= x < 64,
            0 <= y < 64,
            self.free_square(Position(x as u8, y as u8)),
            !av.contains(Position(x as u8, y as u8)),
            lv == self.region(Position(x as u8, y as u8)),
            found == self.touches_box(lv),
            found ==> is_top_left(t, lv) && res2 == res.push(t),
            !found ==> res2 == res,
            self.res_sound(res),
        ensures
            self.scan_inv(av.union(lv), res2, y, x + 1),
            self.res_sound(res2),
    {
        let pos = Position(x as u8, y as u8);
        self.lemma_region_free(pos);
        self.lemma_region_closed(pos);
        let av2 = av.union(lv);
        if found {
            assert(!res.contains(t)) by {
                if res.contains(t) {
                    let i = choose|i: int| 0 <= i < res.len() && res[i] == t;
                    assert(av.contains(res[i]));
                    let p1 = choose|p: Position|
                        #![trigger self.region(p)]
                        scanned_before(p, y, x) && self.free_square(p) && self.region(p).contains(t);
                    self.lemma_region_symmetric(pos, t);
                    self.lemma_region_symmetric(p1, t);
                    assert(self.region(p1).contains(pos));
                }
            }
        }
        assert forall|q: Position| #[trigger] av2.contains(q) implies exists|p: Position|
            #![trigger self.region(p)]
            scanned_before(p, y, x + 1) && self.free_square(p) && self.region(p).contains(q) by {
            if av.contains(q) {
                let p1 = choose|p: Position|
                    #![trigger self.region(p)]
                    scanned_before(p, y, x) && self.free_square(p) && self.region(p).contains(q);
                assert(scanned_before(p1, y, x + 1));
            } else {
                assert(scanned_before(pos, y, x + 1) && self.free_square(pos) && self.region(pos).contains(q));
            }
        }
        assert forall|p: Position, q: Position|
            #![trigger self.region(p).contains(q)]
            scanned_before(p, y, x + 1) && self.free_square(p) && self.region(p).contains(q) implies av2.contains(q) by {
        }
        assert forall|i: int| 0 <= i < res2.len() implies av2.contains(#[trigger] res2[i]) by {
            if i < res.len() {
                assert(res2[i] == res[i]);
            }
        }
        assert forall|i: int| 0 <= i < res2.len() implies self.region_start(#[trigger] res2[i]) by {
            if i < res.len() {
                assert(res2[i] == res[i]);
            } else {
                assert(res2[i] == t);
                assert(self.free_square(pos) && self.touches_box(self.region(pos)) && is_top_left(res2[i], self.region(pos)));
            }
        }
        assert(res2.no_duplicates()) by {
            if found {
                assert forall|i: int, j: int| 0 <= i < res2.len() && 0 <= j < res2.len() && i != j implies res2[i] != res2[j] by {
                    if i < res.len() && j < res.len() {
                        assert(res2[i] == res[i] && res2[j] == res[j]);
                    } else if i < res.len() {
                        assert(res2[i] == res[i]);
                        assert(res.contains(res[i]));
                    } else if j < res.len() {
                        assert(res2[j] == res[j]);
                        assert(res.contains(res[j]));
                    }
                }
            }
        }
        assert forall|p: Position| #[trigger]
            self.free_square(p) && scanned_before(p, y, x + 1) && self.touches_box(self.region(p)) implies exists|i: int|
                0 <= i < res2.len() && is_top_left(#[trigger] res2[i], self.region(p)) by {
            if p == pos {
                assert(found);
                assert(res2[res.len() as int] == t);
                assert(is_top_left(res2[res.len() as int], self.region(p)));
            } else {
                assert(scanned_before(p, y, x));
                let i = choose|i: int| 0 <= i < res.len() && is_top_left(#[trigger] res[i], self.region(p));
                assert(res2[i] == res[i]);
                assert(is_top_left(res2[i], self.region(p)));
            }
        }
    }

    /// The regions from which the player could push a box, each given by its
    /// first square in reading order, for when the player's real position is
    /// unknown.
    pub fn all_possible_player_positions(&self) -> (r: Vec<Position>)
        requires
            self.wf(),
        ensures
            r@.no_duplicates(),
            forall|i: int| 0 <= i < r@.len() ==> self.region_start(#[trigger] r@[i]),
            forall|p: Position| #[trigger]
                self.free_square(p) && self.touches_box(self.region(p)) ==> exists|i: int|
                    0 <= i < r@.len() && is_top_left(#[trigger] r@[i], self.region(p)),
    {
        proof {
            self.lemma_wf();
        }
        let mut all_visited = LazyBitboard::new();
        let mut result: Vec<Position> = Vec::new();
        let mut y: u8 = 0;
        while y < self.height
            invariant
                self.wf(),
                y <= self.spec_height(),
                self.scan_inv(all_visited@, result@, y as int, 0),
                self.res_sound(result@),
            decreases self.spec_height() - y,
        {
            let mut x: u8 = 0;
            while x < self.width
                invariant
                    self.wf(),
                    y < self.spec_height(),
                    x <= self.spec_width(),
                    self.scan_inv(all_visited@, result@, y as int, x as int),
                    self.res_sound(result@),
                decreases self.spec_width() - x,
            {
                let pos = Position(x, y);
                let ghost av = all_visited@;
                let ghost res0 = result@;
                if all_visited.get(pos) {
                    proof {
                        self.lemma_scan_visited(av, res0, y as int, x as int);
                    }
                } else if self.is_blocked(pos) {
                    proof {
                        self.lemma_scan_blocked(av, res0, y as int, x as int);
                    }
                } else {
                    let mut local_visited = LazyBitboard::new();
                    let events = self.dfs(pos, &mut local_visited, StepRule::Walk);
                    let ghost lv = local_visited@;
                    proof {
                        assert(self.walk_region(pos, lv));
                        assert(lv.contains(pos));
                        self.lemma_region_is(pos, lv);
                    }
                    let found = events.len() > 0;
                    let ghost mut t = pos;
                    if found {
                        let tl = local_visited.top_left().unwrap();
                        proof {
                            t = tl;
                        }
                        result.push(tl);
                    }
                    proof {
                        if found {
                            let e = events@[0];
                            assert(events@.contains(e));
                            assert(self.touches_box(lv));
                        } else {
                            assert(!self.touches_box(lv)) by {
                                if self.touches_box(lv) {
                                    let (from, d) = choose|from: Position, d: Direction|
                                        #![trigger lv.contains(from), self.neighbor(from, d)]
                                        lv.contains(from) && self.box_touch(lv, from, d);
                                    let i = choose|i: Index| #[trigger] events@.contains((from, d, i));
                                    assert(events@.len() > 0);
                                }
                            }
                        }
                        self.lemma_scan_new(av, res0, y as int, x as int, lv, found, t, result@);
                    }
                    all_visited.set_all(&local_visited);
                }
                x = x + 1;
            }
            proof {
                assert(self.scan_inv(all_visited@, result@, y + 1, 0)) by {
                    let av = all_visited@;
                    let res = result@;
                    assert forall|p: Position| self.free_square(p) implies #[trigger] scanned_before(p, y + 1, 0) == scanned_before(p, y as int, x as int) by {}
                    assert forall|q: Position| #[trigger] av.contains(q) implies exists|p: Position|
                        #![trigger self.region(p)]
                        scanned_before(p, y + 1, 0) && self.free_square(p) && self.region(p).contains(q) by {
                        let p1 = choose|p: Position|
                            #![trigger self.region(p)]
                            scanned_before(p, y as int, x as int) && self.free_square(p) && self.region(p).contains(q);
                        assert(scanned_before(p1, y + 1, 0));
                    }
                }
            }
            y = y + 1;
        }
        proof {
            assert forall|p: Position| self.free_square(p) implies #[trigger] scanned_before(p, y as int, 0) by {}
        }
        result
    }
}

} // verus!
