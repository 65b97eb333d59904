use vstd::prelude::*;

use crate::bits::{on_grid, Position};
use crate::game::{lemma_trim_padded, normal_lines, step};
use crate::moves::dir_at;
use crate::reach::{
    cell, closed, closure_of, count_missing, grid, grid_pos, is_closure, lemma_cell_grid_pos,
    lemma_closure_of, lemma_closure_unique, lemma_count_missing_insert, lemma_grid_finite,
    lemma_grid_pos_cell, within_closure,
};
use crate::text::{
    board_lines, char_at, is_board_char, is_player_char, lemma_max_width, lemma_scan_complete, lemma_scan_facts, lines,
    max_width, parse_error, scan_all, scan_board, scanned, string_from_chars, too_many_pieces, trim_spaces, ParseError,
};

verus! {

#[derive(Debug, Clone, Copy, PartialEq, Eq, Structural)]
pub enum Tile {
    Wall,
    Floor,
    Goal,
    Box,
    BoxOnGoal,
}

/// The tile that a board character stands for; a square beyond the end of
/// its line is floor.
pub open spec fn board_tile(c: Option<char>) -> Tile {
    match c {
        Some(ch) => if ch == '#' {
            Tile::Wall
        } else if ch == '.' || ch == '+' {
            Tile::Goal
        } else if ch == '$' {
            Tile::Box
        } else if ch == '*' {
            Tile::BoxOnGoal
        } else {
            Tile::Floor
        },
        None => Tile::Floor,
    }
}

pub open spec fn holds_box(t: Tile) -> bool {
    t == Tile::Box || t == Tile::BoxOnGoal
}

/// A step of the flood fill over tiles stored by grid cell, on a board of
/// `w` x `h` squares: to the neighbour in direction number `d`, unless it is
/// off the board or a wall.
pub open spec fn tiles_step(tiles: Seq<Tile>, w: int, h: int) -> spec_fn(Position, int) -> Option<
    Position,
> {
    |p: Position, d: int|
        match step(w, h, p, dir_at(d)) {
            Some(q) => if tiles[cell(q)] != Tile::Wall {
                Some(q)
            } else {
                None
            },
            None => None,
        }
}

/// The squares of a board text that the player can walk to, boxes counted
/// as floor.
pub open spec fn text_region(t: Seq<char>) -> Set<Position> {
    let ls = lines(t);
    let w = max_width(ls, ls.len() as int);
    let tiles = Seq::new(4096, |k: int| board_tile(char_at(ls, grid_pos(k).0 as int, grid_pos(k).1 as int)));
    closure_of(tiles_step(tiles, w as int, ls.len() as int), set![scan_all(ls).1->0])
}

/// `idx` numbers the squares of `region`, by grid cell, one to one with the
/// numbers below the region's size; every other square has 255.
pub open spec fn numbers_region(idx: Seq<u8>, region: Set<Position>) -> bool {
    &&& idx.len() == 4096
    &&& forall|p: Position| on_grid(p) ==> (#[trigger] idx[cell(p)] != 255 <==> region.contains(p))
    &&& forall|p: Position| #[trigger] region.contains(p) ==> on_grid(p) && idx[cell(p)] < region.len()
    &&& forall|p: Position, q: Position|
        #![trigger region.contains(p), region.contains(q)]
        region.contains(p) && region.contains(q) && idx[cell(p)] == idx[cell(q)] ==> p == q
}

/// The order in which the flood fill tries the directions from a square:
/// up, right, down, left.
pub open spec fn fill_dir(k: int) -> int {
    if k == 0 {
        0
    } else if k == 1 {
        3
    } else if k == 2 {
        1
    } else {
        2
    }
}

fn fill_dir_exec(k: usize) -> (r: usize)
    requires
        k < 4,
    ensures
        r == fill_dir(k as int),
        r < 4,
{
    if k == 0 {
        0
    } else if k == 1 {
        3
    } else if k == 2 {
        1
    } else {
        2
    }
}

/// The neighbour of `p` in direction number `d` on a board of `w` x `h`.
fn neighbor(p: Position, d: usize, w: usize, h: usize) -> (r: Option<Position>)
    requires
        d < 4,
        w <= 64,
        h <= 64,
    ensures
        r == step(w as int, h as int, p, dir_at(d as int)),
{
    if d == 0 {
        if p.1 > 0 && (p.1 as usize) - 1 < h && (p.0 as usize) < w {
            Some(Position(p.0, p.1 - 1))
        } else {
            None
        }
    } else if d == 1 {
        if (p.1 as usize) + 1 < h && (p.0 as usize) < w {
            Some(Position(p.0, p.1 + 1))
        } else {
            None
        }
    } else if d == 2 {
        if p.0 > 0 && (p.0 as usize) - 1 < w && (p.1 as usize) < h {
            Some(Position(p.0 - 1, p.1))
        } else {
            None
        }
    } else {
        if (p.0 as usize) + 1 < w && (p.1 as usize) < h {
            Some(Position(p.0 + 1, p.1))
        } else {
            None
        }
    }
}

/// The squares reached from a square on the board stay on the board.
proof fn lemma_region_on_board(tiles: Seq<Tile>, w: int, h: int, start: Position)
    requires
        0 <= w <= 64,
        0 <= h <= 64,
        start.0 < w,
        start.1 < h,
    ensures
        forall|p: Position| #[trigger]
            closure_of(tiles_step(tiles, w, h), set![start]).contains(p) ==> p.0 < w && p.1 < h,
        closure_of(tiles_step(tiles, w, h), set![start]).subset_of(grid()),
{
    let st = tiles_step(tiles, w, h);
    let board = Set::new(|p: Position| p.0 < w && p.1 < h);
    assert(closed(st, board));
    assert(set![start].subset_of(board));
}

/// A Sokoban board as parsed from text, with a number for each square that
/// the player can walk to and a bit set of the numbers of the squares that
/// hold boxes.
#[derive(Debug, PartialEq, Eq)]
pub struct Board {
    tiles: Vec<Tile>,
    player: (u8, u8),
    empty_goals: u8,
    width: u8,
    height: u8,
    indexes: Vec<u8>,
    box_bitset: [u32; 8],
}

impl Board {
    #[verifier::type_invariant]
    spec fn inv(&self) -> bool {
        &&& self.tiles@.len() == 4096
        &&& self.indexes@.len() == 4096
        &&& self.width <= 64
        &&& self.height <= 64
    }

    pub closed spec fn spec_tile(&self, p: Position) -> Tile {
        self.tiles@[cell(p)]
    }

    /// The number of a square, 255 where the player cannot walk.
    pub closed spec fn spec_index(&self, p: Position) -> u8 {
        self.indexes@[cell(p)]
    }

    pub closed spec fn index_seq(&self) -> Seq<u8> {
        self.indexes@
    }

    pub closed spec fn spec_player(&self) -> (u8, u8) {
        self.player
    }

    pub closed spec fn spec_width(&self) -> int {
        self.width as int
    }

    pub closed spec fn spec_height(&self) -> int {
        self.height as int
    }

    pub closed spec fn spec_empty_goals(&self) -> int {
        self.empty_goals as int
    }

    /// Whether the box bit set holds number `i` (below 256).
    pub closed spec fn has_box_number(&self, i: int) -> bool {
        bit32(self.box_bitset@[i / 32], i % 32)
    }

    pub closed spec fn box_words(&self) -> Seq<u32> {
        self.box_bitset@
    }

    /// The board is the one that a text describes.
    pub open spec fn matches_text(&self, t: Seq<char>) -> bool {
        let ls = lines(t);
        let st = scan_all(ls);
        let pl = self.spec_player();
        &&& self.spec_width() == max_width(ls, ls.len() as int)
        &&& self.spec_height() == ls.len()
        &&& st.1 == Some(Position(pl.0, pl.1))
        &&& self.spec_empty_goals() == st.3.len() - st.4
        &&& forall|p: Position|
            on_grid(p) ==> #[trigger] self.spec_tile(p) == board_tile(char_at(ls, p.0 as int, p.1 as int))
        &&& numbers_region(self.index_seq(), text_region(t))
        &&& self.spec_index(Position(pl.0, pl.1)) == 0
        &&& forall|i: int|
            0 <= i < 256 ==> (#[trigger] self.has_box_number(i) <==> exists|p: Position|
                #[trigger] text_region(t).contains(p) && holds_box(self.spec_tile(p)) && self.spec_index(p) == i)
    }

    /// Parse a Sokoban board from text format.
    ///
    /// Characters:
    /// - `#` = Wall
    /// - ` ` = Floor (empty space)
    /// - `.` = Goal (target location for boxes)
    /// - `$` = Box
    /// - `@` = Player
    /// - `*` = Box on goal
    /// - `+` = Player on goal
    pub fn from_text(text: &str) -> (r: Result<Self, ParseError>)
        requires
            !too_many_pieces(text@, 255),
            parse_error(text@) is None ==> text_region(text@).len() < 256,
        ensures
            match r {
                Err(e) => parse_error(text@) == Some(e),
                Ok(b) => parse_error(text@) is None && b.matches_text(text@),
            },
    {
        let (ls, width) = match board_lines(text) {
            Ok(x) => x,
            Err(e) => {
                return Err(e);
            },
        };
        let ghost v = lines(text@);
        let height = ls.len();
        proof {
            assert forall|y: int| 0 <= y < ls@.len() implies #[trigger] ls@[y]@.len() <= 64 by {
                assert(ls@.map_values(|l: Vec<char>| l@)[y] == ls@[y]@);
            }
        }
        let scan = match scan_board(&ls) {
            Ok(s) => s,
            Err(e) => {
                return Err(e);
            },
        };
        let ghost st = scan_all(v);
        proof {
            crate::text::lemma_scan_facts(v, v.len() - 1, v[v.len() - 1].len() as int);
        }
        let player = match scan.player {
            Some(p) => p,
            None => {
                return Err(ParseError::NoPlayer);
            },
        };
        // Validate that the number of goals matches the number of boxes
        if scan.goals.len() != scan.boxes.len() {
            return Err(ParseError::CountMismatch(scan.goals.len(), scan.boxes.len()));
        }
        let tiles = build_board_tiles(&ls);
        let ghost tseq = Seq::new(
            4096,
            |k: int| board_tile(char_at(v, grid_pos(k).0 as int, grid_pos(k).1 as int)),
        );
        proof {
            assert(tiles@ =~= tseq) by {
                assert forall|k: int| 0 <= k < 4096 implies tiles@[k] == tseq[k] by {
                    lemma_grid_pos_cell(k);
                    let p = grid_pos(k);
                    assert(tiles@[cell(p)] == board_tile(char_at(v, p.0 as int, p.1 as int)));
                }
            }
            lemma_max_width(v, v.len() as int, player.1 as int);
            assert(parse_error(text@) is None);
        }
        let indexes = Self::build_position_indexes(&tiles, player, width, height);
        let box_bitset = build_box_bitset(&tiles, &indexes);
        let empty_goals = (scan.goals.len() - scan.boxes_on_goals) as u8;
        let board = Board {
            tiles,
            player: (player.0, player.1),
            empty_goals,
            width: width as u8,
            height: height as u8,
            indexes,
            box_bitset,
        };
        proof {
            let region = text_region(text@);
            assert(region == closure_of(tiles_step(tiles@, width as int, height as int), set![player]));
            assert forall|i: int|
                0 <= i < 256 implies (#[trigger] board.has_box_number(i) <==> exists|p: Position|
                #[trigger] region.contains(p) && holds_box(board.spec_tile(p)) && board.spec_index(p) == i) by {
                if board.has_box_number(i) {
                    assert(box_numbered(tiles@, indexes@, i, 4096));
                    let k = choose|k: int| 0 <= k < 4096 && holds_box(#[trigger] tiles@[k]) && indexes@[k] != 255 && indexes@[k] == i;
                    lemma_grid_pos_cell(k);
                    let p = grid_pos(k);
                    assert(region.contains(p));
                }
                if exists|p: Position| #[trigger] region.contains(p) && holds_box(board.spec_tile(p)) && board.spec_index(p) == i {
                    let p = choose|p: Position| #[trigger] region.contains(p) && holds_box(board.spec_tile(p)) && board.spec_index(p) == i;
                    lemma_cell_grid_pos(p);
                    assert(holds_box(tiles@[cell(p)]));
                    assert(box_numbered(tiles@, indexes@, i, 4096));
                }
            }
        }
        Ok(board)
    }

    pub fn width(&self) -> (r: usize)
        ensures
            r == self.spec_width(),
    {
        self.width as usize
    }

    pub fn height(&self) -> (r: usize)
        ensures
            r == self.spec_height(),
    {
        self.height as usize
    }

    pub fn player_pos(&self) -> (r: (u8, u8))
        ensures
            r == self.spec_player(),
    {
        self.player
    }

    pub fn get_tile(&self, x: u8, y: u8) -> (r: Tile)
        requires
            x < 64,
            y < 64,
        ensures
            r == self.spec_tile(Position(x, y)),
    {
        proof {
            use_type_invariant(self);
        }
        self.tiles[y as usize * 64 + x as usize]
    }

    /// Check if all boxes are on goals (win condition)
    pub fn is_solved(&self) -> (r: bool)
        ensures
            r == (self.spec_empty_goals() == 0),
    {
        self.empty_goals == 0
    }

    /// The number of the square at `(x, y)`; 255 where the player cannot walk.
    pub fn index_at(&self, x: u8, y: u8) -> (r: u8)
        requires
            x < 64,
            y < 64,
        ensures
            r == self.spec_index(Position(x, y)),
    {
        proof {
            use_type_invariant(self);
        }
        self.indexes[y as usize * 64 + x as usize]
    }

    /// The number of goals without a box.
    pub fn empty_goals(&self) -> (r: u8)
        ensures
            r == self.spec_empty_goals(),
    {
        self.empty_goals
    }

    /// The bit set of the numbers of the squares that hold boxes.
    pub fn box_bitset(&self) -> (r: [u32; 8])
        ensures
            r@ == self.box_words(),
    {
        self.box_bitset
    }

    /// Whether a box stands on the square with number `idx`.
    pub fn has_box_at_index(&self, idx: u8) -> (r: bool)
        ensures
            r == (idx != 255 && self.has_box_number(idx as int)),
    {
        if idx == 255 {
            return false;
        }
        let word_idx = (idx / 32) as usize;
        let bit_idx = (idx % 32) as u32;
        let w = self.box_bitset[word_idx];
        let r = (w & (1u32 << bit_idx)) != 0;
        proof {
            assert(((w & (1u32 << bit_idx)) != 0u32) <==> ((w >> bit_idx) & 1u32 == 1u32)) by (bit_vector)
                requires
                    bit_idx < 32,
            ;
        }
        r
    }

    /// Row `y` of the board as text, without trailing spaces.
    pub open spec fn display_row(&self, y: int) -> Seq<char> {
        let pl = self.spec_player();
        trim_spaces(
            Seq::new(
                self.spec_width() as nat,
                |x: int| display_char(self.spec_tile(Position(x as u8, y as u8)), x == pl.0 && y == pl.1),
            ),
        )
    }

    /// The first `n` rows as text, each ended by a line break.
    pub open spec fn display_upto(&self, n: int) -> Seq<char>
        decreases n,
    {
        if n <= 0 {
            Seq::empty()
        } else {
            self.display_upto(n - 1) + self.display_row(n - 1) + seq!['\n']
        }
    }

    /// The board as text, one line per row.
    pub fn to_text(&self) -> (r: String)
        ensures
            r@ == self.display_upto(self.spec_height()),
    {
        proof {
            use_type_invariant(self);
        }
        let mut out: Vec<char> = Vec::new();
        let mut y: u8 = 0;
        while y < self.height
            invariant
                self.inv(),
                y <= self.height,
                out@ == self.display_upto(y as int),
            decreases self.height - y,
        {
            let mut line: Vec<char> = Vec::new();
            let mut x: u8 = 0;
            let ghost pl = self.spec_player();
            while x < self.width
                invariant
                    self.inv(),
                    y < self.height,
                    x <= self.width,
                    pl == self.spec_player(),
                    line@ == Seq::new(
                        x as nat,
                        |xx: int| display_char(self.spec_tile(Position(xx as u8, y)), xx == pl.0 && y == pl.1),
                    ),
                decreases self.width - x,
            {
                let tile = self.tiles[y as usize * 64 + x as usize];
                let c = display_char_exec(tile, x == self.player.0 && y == self.player.1);
                line.push(c);
                proof {
                    assert(cell(Position(x, y)) == y * 64 + x);
                }
                x = x + 1;
                assert(line@ =~= Seq::new(
                    x as nat,
                    |xx: int| display_char(self.spec_tile(Position(xx as u8, y)), xx == pl.0 && y == pl.1),
                ));
            }
            let ghost full = line@;
            assert(full =~= Seq::new(
                self.spec_width() as nat,
                |xx: int| display_char(self.spec_tile(Position(xx as u8, y as u8)), xx == pl.0 && y == pl.1),
            ));
            while line.len() > 0 && line[line.len() - 1] == ' '
                invariant
                    trim_spaces(line@) == trim_spaces(full),
                decreases line@.len(),
            {
                let ghost l0 = line@;
                line.pop();
                assert(line@ == l0.drop_last());
            }
            let mut k: usize = 0;
            let ghost o0 = out@;
            while k < line.len()
                invariant
                    k <= line@.len(),
                    out@ == o0 + line@.take(k as int),
                decreases line@.len() - k,
            {
                out.push(line[k]);
                k = k + 1;
                assert(line@.take(k as int) == line@.take(k - 1).push(line@[k - 1]));
            }
            out.push('\n');
            assert(line@.take(line@.len() as int) == line@);
            assert(out@ =~= self.display_upto(y + 1));
            y = y + 1;
        }
        string_from_chars(&out)
    }

    /// Number the squares that the player can walk to (boxes counted as floor)
    /// by a flood fill from the player's square, which gets 0; every other
    /// square gets 255.
    fn build_position_indexes(tiles: &Vec<Tile>, player_pos: Position, width: usize, height: usize) -> (r:
        Vec<u8>)
        requires
            tiles@.len() == 4096,
            width <= 64,
            height <= 64,
            player_pos.0 < width,
            player_pos.1 < height,
            closure_of(tiles_step(tiles@, width as int, height as int), set![player_pos]).len() < 256,
        ensures
            numbers_region(r@, closure_of(tiles_step(tiles@, width as int, height as int), set![player_pos])),
            r@[cell(player_pos)] == 0,
    {
        let ghost st = tiles_step(tiles@, width as int, height as int);
        let ghost base = set![player_pos];
        let ghost region = closure_of(st, base);
        proof {
            lemma_closure_of(st, base);
            lemma_region_on_board(tiles@, width as int, height as int, player_pos);
            lemma_grid_finite(region);
            lemma_cell_grid_pos(player_pos);
        }
        let mut indexes: Vec<u8> = Vec::new();
        let mut k: usize = 0;
        while k < 4096
            invariant
                k <= 4096,
                indexes@.len() == k,
                forall|j: int| 0 <= j < k ==> #[trigger] indexes@[j] == 255,
            decreases 4096 - k,
        {
            indexes.push(255);
            k = k + 1;
        }
        let mut next_index: u8 = 0;
        let mut stack: Vec<Position> = Vec::new();
        let ghost mut order: Seq<Position> = Seq::empty();
        let ghost mut vis: Set<Position> = Set::empty();
        stack.push(player_pos);
        indexes.set(player_pos.1 as usize * 64 + player_pos.0 as usize, next_index);
        next_index = next_index + 1;
        proof {
            order = order.push(player_pos);
            vis = vis.insert(player_pos);
            assert(stack@[0] == player_pos);
            assert forall|p: Position| on_grid(p) implies (#[trigger] indexes@[cell(p)] != 255 <==> vis.contains(p)) by {
                lemma_cell_grid_pos(p);
            }
            assert forall|s: Set<Position>| #[trigger] closed(st, s) && base.subset_of(s) implies vis.subset_of(s) by {
                assert(s.contains(player_pos));
            }
            assert(vis.len() == 1);
            lemma_count_missing_insert(Set::empty(), player_pos, 4096);
        }
        while stack.len() > 0
            invariant
                tiles@.len() == 4096,
                width <= 64,
                height <= 64,
                st == tiles_step(tiles@, width as int, height as int),
                base == set![player_pos],
                region == closure_of(st, base),
                is_closure(st, base, region),
                region.finite(),
                region.len() < 256,
                region.subset_of(grid()),
                indexes@.len() == 4096,
                indexes@[cell(player_pos)] == 0,
                next_index == order.len(),
                vis.finite(),
                vis.len() == order.len(),
                forall|j: int| 0 <= j < order.len() ==> on_grid(#[trigger] order[j]) && indexes@[cell(order[j])] == j,
                forall|p: Position| on_grid(p) ==> (#[trigger] indexes@[cell(p)] != 255 <==> vis.contains(p)),
                forall|p: Position| #[trigger] vis.contains(p) ==> on_grid(p) && indexes@[cell(p)] < order.len()
                    && order[indexes@[cell(p)] as int] == p,
                base.subset_of(vis),
                forall|i: int| 0 <= i < stack@.len() ==> vis.contains(#[trigger] stack@[i]),
                forall|p: Position| #[trigger] vis.contains(p) ==> stack@.contains(p) || (
                    forall|d: int| #![trigger st(p, d)] 0 <= d < 4 && st(p, d) is Some ==> vis.contains(st(p, d)->0)),
                within_closure(st, base, vis),
            decreases 2 * count_missing(vis, 4096) + stack@.len(),
        {
            let ghost m0 = 2 * count_missing(vis, 4096) + stack@.len();
            let ghost s0 = stack@;
            let from_pos = stack.pop().unwrap();
            proof {
                assert(stack@ == s0.drop_last());
                assert(from_pos == s0.last());
                assert(vis.contains(s0[s0.len() - 1]));
                assert forall|p: Position| #[trigger] vis.contains(p) implies p == from_pos || stack@.contains(p) || (
                    forall|d: int| #![trigger st(p, d)] 0 <= d < 4 && st(p, d) is Some ==> vis.contains(st(p, d)->0)) by {
                    if s0.contains(p) && p != from_pos {
                        let i = choose|i: int| 0 <= i < s0.len() && s0[i] == p;
                        assert(stack@[i] == p);
                    }
                }
            }
            let mut k: usize = 0;
            while k < 4
                invariant
                    0 <= k <= 4,
                    tiles@.len() == 4096,
                    width <= 64,
                    height <= 64,
                    st == tiles_step(tiles@, width as int, height as int),
                    base == set![player_pos],
                    region == closure_of(st, base),
                    is_closure(st, base, region),
                    region.finite(),
                    region.len() < 256,
                    region.subset_of(grid()),
                    indexes@.len() == 4096,
                    indexes@[cell(player_pos)] == 0,
                    next_index == order.len(),
                    vis.finite(),
                    vis.len() == order.len(),
                    vis.contains(from_pos),
                    forall|j: int| 0 <= j < order.len() ==> on_grid(#[trigger] order[j]) && indexes@[cell(order[j])] == j,
                    forall|p: Position| on_grid(p) ==> (#[trigger] indexes@[cell(p)] != 255 <==> vis.contains(p)),
                    forall|p: Position| #[trigger] vis.contains(p) ==> on_grid(p) && indexes@[cell(p)] < order.len()
                        && order[indexes@[cell(p)] as int] == p,
                    base.subset_of(vis),
                    forall|i: int| 0 <= i < stack@.len() ==> vis.contains(#[trigger] stack@[i]),
                    forall|p: Position| #[trigger] vis.contains(p) ==> p == from_pos || stack@.contains(p) || (
                        forall|d: int| #![trigger st(p, d)] 0 <= d < 4 && st(p, d) is Some ==> vis.contains(st(p, d)->0)),
                    forall|kk: int| 0 <= kk < k && #[trigger] st(from_pos, fill_dir(kk)) is Some
                        ==> vis.contains(st(from_pos, fill_dir(kk))->0),
                    within_closure(st, base, vis),
                    2 * count_missing(vis, 4096) + stack@.len() < m0,
                decreases 4 - k,
            {
                let d = fill_dir_exec(k);
                if let Some(to_pos) = neighbor(from_pos, d, width, height) {
                    let cell_to = to_pos.1 as usize * 64 + to_pos.0 as usize;
                    proof {
                        lemma_cell_grid_pos(to_pos);
                    }
                    if indexes[cell_to] == 255 && tiles[cell_to] != Tile::Wall {
                        let ghost v0 = vis;
                        let ghost st0 = stack@;
                        proof {
                            assert(st(from_pos, d as int) == Some(to_pos));
                            assert(!vis.contains(to_pos));
                            let nv = vis.insert(to_pos);
                            assert forall|s: Set<Position>| #[trigger] closed(st, s) && base.subset_of(s) implies nv.subset_of(s) by {
                                assert(v0.subset_of(s));
                                assert(s.contains(from_pos));
                                assert(s.contains(st(from_pos, d as int)->0));
                            }
                            assert(nv.subset_of(region)) by {
                                assert(closed(st, region) && base.subset_of(region));
                            }
                            vstd::set_lib::lemma_len_subset(nv, region);
                            assert(nv.len() == vis.len() + 1);
                        }
                        indexes.set(cell_to, next_index);
                        next_index = next_index + 1;
                        stack.push(to_pos);
                        proof {
                            order = order.push(to_pos);
                            vis = vis.insert(to_pos);
                            assert(stack@.last() == to_pos);
                            assert(v0.contains(player_pos));
                            lemma_cell_grid_pos(player_pos);
                            assert(cell(player_pos) != cell(to_pos));
                            assert forall|j: int| 0 <= j < order.len() implies on_grid(#[trigger] order[j]) && indexes@[cell(order[j])] == j by {
                                if j < order.len() - 1 {
                                    lemma_cell_grid_pos(order[j]);
                                    assert(order[j] != to_pos);
                                    assert(cell(order[j]) != cell(to_pos));
                                }
                            }
                            assert forall|p: Position| on_grid(p) implies (#[trigger] indexes@[cell(p)] != 255 <==> vis.contains(p)) by {
                                lemma_cell_grid_pos(p);
                                if p != to_pos {
                                    assert(cell(p) != cell(to_pos));
                                }
                            }
                            assert forall|p: Position| #[trigger] vis.contains(p) implies on_grid(p) && indexes@[cell(p)] < order.len()
                                && order[indexes@[cell(p)] as int] == p by {
                                if p != to_pos {
                                    lemma_cell_grid_pos(p);
                                    assert(v0.contains(p));
                                    assert(cell(p) != cell(to_pos));
                                }
                            }
                            assert forall|p: Position| #[trigger] vis.contains(p) implies p == from_pos || stack@.contains(p) || (
                                forall|dd: int| #![trigger st(p, dd)] 0 <= dd < 4 && st(p, dd) is Some ==> vis.contains(st(p, dd)->0)) by {
                                if p == to_pos {
                                    assert(stack@[stack@.len() - 1] == p);
                                } else if st0.contains(p) {
                                    let i = choose|i: int| 0 <= i < st0.len() && st0[i] == p;
                                    assert(stack@[i] == p);
                                }
                            }
                            assert forall|i: int| 0 <= i < stack@.len() implies vis.contains(#[trigger] stack@[i]) by {
                                if i < st0.len() {
                                    assert(stack@[i] == st0[i]);
                                }
                            }
                            lemma_count_missing_insert(v0, to_pos, 4096);
                        }
                    }
                }
                k = k + 1;
            }
            proof {
                assert forall|dd: int| #![trigger st(from_pos, dd)] 0 <= dd < 4 && st(from_pos, dd) is Some implies vis.contains(
                    st(from_pos, dd)->0) by {
                    if dd == 0 {
                        assert(fill_dir(0) == dd);
                    } else if dd == 3 {
                        assert(fill_dir(1) == dd);
                    } else if dd == 1 {
                        assert(fill_dir(2) == dd);
                    } else {
                        assert(fill_dir(3) == dd);
                    }
                }
            }
        }
        proof {
            assert(closed(st, vis));
            assert(is_closure(st, base, vis));
            lemma_closure_unique(st, base, vis, region);
            assert forall|p: Position, q: Position|
                #![trigger region.contains(p), region.contains(q)]
                region.contains(p) && region.contains(q) && indexes@[cell(p)] == indexes@[cell(q)] implies p == q by {
            }
        }
        indexes
    }
}

/// The character that shows a tile, with or without the player on it.
pub open spec fn display_char(t: Tile, player: bool) -> char {
    if player {
        if t == Tile::Goal {
            '+'
        } else {
            '@'
        }
    } else {
        match t {
            Tile::Wall => '#',
            Tile::Floor => ' ',
            Tile::Goal => '.',
            Tile::Box => '$',
            Tile::BoxOnGoal => '*',
        }
    }
}

fn display_char_exec(t: Tile, player: bool) -> (r: char)
    ensures
        r == display_char(t, player),
{
    if player {
        if t == Tile::Goal {
            '+'
        } else {
            '@'
        }
    } else {
        match t {
            Tile::Wall => '#',
            Tile::Floor => ' ',
            Tile::Goal => '.',
            Tile::Box => '$',
            Tile::BoxOnGoal => '*',
        }
    }
}

/// Bit `i` of a 32-bit word.
pub open spec fn bit32(w: u32, i: int) -> bool {
    (w >> (i as u32)) & 1u32 == 1u32
}

proof fn lemma_bit32_set(w: u32, b: u32, i: u32)
    requires
        b < 32,
        i < 32,
    ensures
        bit32(w | (1u32 << b), i as int) == (i == b || bit32(w, i as int)),
        !bit32(0u32, i as int),
{
    assert(((w | (1u32 << b)) >> i) & 1u32 == 1u32 <==> (i == b || (w >> i) & 1u32 == 1u32)) by (bit_vector)
        requires
            b < 32,
            i < 32,
    ;
    assert((0u32 >> i) & 1u32 != 1u32) by (bit_vector);
}

/// Whether the text holds a box at the square with the given number.
pub open spec fn box_numbered(tiles: Seq<Tile>, idx: Seq<u8>, i: int, n: int) -> bool {
    exists|k: int| 0 <= k < n && holds_box(#[trigger] tiles[k]) && idx[k] != 255 && idx[k] == i
}

fn board_tile_of_char(c: char) -> (r: Tile)
    ensures
        r == board_tile(Some(c)),
{
    if c == '#' {
        Tile::Wall
    } else if c == '.' || c == '+' {
        Tile::Goal
    } else if c == '$' {
        Tile::Box
    } else if c == '*' {
        Tile::BoxOnGoal
    } else {
        Tile::Floor
    }
}

/// The tiles of a board text of at most 64 x 64 characters, by grid cell.
fn build_board_tiles(ls: &Vec<Vec<char>>) -> (tiles: Vec<Tile>)
    requires
        ls@.len() <= 64,
        forall|y: int| 0 <= y < ls@.len() ==> #[trigger] ls@[y]@.len() <= 64,
    ensures
        tiles@.len() == 4096,
        forall|p: Position|
            on_grid(p) ==> #[trigger] tiles@[cell(p)] == board_tile(
                char_at(ls@.map_values(|l: Vec<char>| l@), p.0 as int, p.1 as int),
            ),
{
    let ghost v = ls@.map_values(|l: Vec<char>| l@);
    let mut tiles: Vec<Tile> = Vec::new();
    let mut k: usize = 0;
    while k < 4096
        invariant
            k <= 4096,
            tiles@.len() == k,
            forall|j: int| 0 <= j < k ==> #[trigger] tiles@[j] == Tile::Floor,
        decreases 4096 - k,
    {
        tiles.push(Tile::Floor);
        k = k + 1;
    }
    let mut y: usize = 0;
    while y < ls.len()
        invariant
            v == ls@.map_values(|l: Vec<char>| l@),
            ls@.len() <= 64,
            forall|yy: int| 0 <= yy < ls@.len() ==> #[trigger] ls@[yy]@.len() <= 64,
            y <= ls@.len(),
            tiles@.len() == 4096,
            forall|p: Position|
                on_grid(p) ==> #[trigger] tiles@[cell(p)] == if p.1 < y {
                    board_tile(char_at(v, p.0 as int, p.1 as int))
                } else {
                    Tile::Floor
                },
        decreases ls@.len() - y,
    {
        let line = &ls[y];
        let mut x: usize = 0;
        while x < line.len()
            invariant
                v == ls@.map_values(|l: Vec<char>| l@),
                y < ls@.len() <= 64,
                line@ == v[y as int],
                line@.len() <= 64,
                x <= line@.len(),
                tiles@.len() == 4096,
                forall|p: Position|
                    on_grid(p) ==> #[trigger] tiles@[cell(p)] == if p.1 < y || (p.1 == y && p.0 < x) {
                        board_tile(char_at(v, p.0 as int, p.1 as int))
                    } else {
                        Tile::Floor
                    },
            decreases line@.len() - x,
        {
            let t = board_tile_of_char(line[x]);
            let ghost before = tiles@;
            tiles.set(y * 64 + x, t);
            proof {
                let q = Position(x as u8, y as u8);
                assert(cell(q) == y * 64 + x);
                assert forall|p: Position| on_grid(p) implies #[trigger] tiles@[cell(p)] == if p.1 < y || (p.1 == y && p.0 < x + 1) {
                    board_tile(char_at(v, p.0 as int, p.1 as int))
                } else {
                    Tile::Floor
                } by {
                    lemma_cell_grid_pos(p);
                    if p != q {
                        assert(cell(p) != cell(q));
                        assert(tiles@[cell(p)] == before[cell(p)]);
                    }
                }
            }
            x = x + 1;
        }
        proof {
            assert forall|p: Position| on_grid(p) implies #[trigger] tiles@[cell(p)] == if p.1 < y + 1 {
                board_tile(char_at(v, p.0 as int, p.1 as int))
            } else {
                Tile::Floor
            } by {
                if p.1 == y && p.0 >= x {
                    assert(char_at(v, p.0 as int, p.1 as int) is None);
                }
            }
        }
        y = y + 1;
    }
    proof {
        assert forall|p: Position| on_grid(p) implies #[trigger] tiles@[cell(p)] == board_tile(
            char_at(v, p.0 as int, p.1 as int),
        ) by {
            if p.1 >= y {
                assert(char_at(v, p.0 as int, p.1 as int) is None);
            }
        }
    }
    tiles
}

/// The set bits of the box bit set: one for the number of each square of
/// the first `n` grid cells that holds a box and has a number.
fn build_box_bitset(tiles: &Vec<Tile>, indexes: &Vec<u8>) -> (r: [u32; 8])
    requires
        tiles@.len() == 4096,
        indexes@.len() == 4096,
    ensures
        forall|i: int| 0 <= i < 256 ==> (bit32(#[trigger] r@[i / 32], i % 32) <==> box_numbered(tiles@, indexes@, i, 4096)),
{
    let mut bits: [u32; 8] = [0u32; 8];
    proof {
        assert forall|i: int| 0 <= i < 256 implies (bit32(#[trigger] bits@[i / 32], i % 32) <==> box_numbered(tiles@, indexes@, i, 0)) by {
            lemma_bit32_set(0, 0, (i % 32) as u32);
        }
    }
    let mut k: usize = 0;
    while k < 4096
        invariant
            k <= 4096,
            tiles@.len() == 4096,
            indexes@.len() == 4096,
            forall|i: int| 0 <= i < 256 ==> (bit32(#[trigger] bits@[i / 32], i % 32) <==> box_numbered(tiles@, indexes@, i, k as int)),
        decreases 4096 - k,
    {
        let tile = tiles[k];
        let index = indexes[k];
        let ghost b0 = bits@;
        if (tile == Tile::Box || tile == Tile::BoxOnGoal) && index < 255 {
            let word = (index / 32) as usize;
            let bit = (index % 32) as u32;
            bits[word] = bits[word] | (1u32 << bit);
            proof {
                assert forall|i: int| 0 <= i < 256 implies (bit32(#[trigger] bits@[i / 32], i % 32) <==> box_numbered(tiles@, indexes@, i, k + 1)) by {
                    if i / 32 == word {
                        lemma_bit32_set(b0[word as int], bit, (i % 32) as u32);
                        if i == index {
                            assert(holds_box(tiles@[k as int]));
                        } else {
                            assert(i % 32 != bit);
                        }
                    } else {
                        assert(bits@[i / 32] == b0[i / 32]);
                    }
                    if box_numbered(tiles@, indexes@, i, k + 1) && i != index {
                        let j = choose|j: int| 0 <= j < k + 1 && holds_box(#[trigger] tiles@[j]) && indexes@[j] != 255 && indexes@[j] == i;
                        assert(j < k);
                    }
                }
            }
        } else {
            proof {
                assert forall|i: int| 0 <= i < 256 implies (bit32(#[trigger] bits@[i / 32], i % 32) <==> box_numbered(tiles@, indexes@, i, k + 1)) by {
                    if box_numbered(tiles@, indexes@, i, k + 1) {
                        let j = choose|j: int| 0 <= j < k + 1 && holds_box(#[trigger] tiles@[j]) && indexes@[j] != 255 && indexes@[j] == i;
                        assert(j < k);
                    }
                }
            }
        }
        k = k + 1;
    }
    bits
}

/// A row of a board read from a text prints as the text's line, without its
/// trailing spaces.
proof fn lemma_board_print_row(b: Board, t: Seq<char>, y: int)
    requires
        parse_error(t) is None,
        b.matches_text(t),
        0 <= y < lines(t).len(),
    ensures
        b.display_row(y) == trim_spaces(lines(t)[y]),
{
    let ls = lines(t);
    let n = ls.len() as int;
    let st = scan_all(ls);
    assert(n <= 64);
    assert forall|yy: int| 0 <= yy < ls.len() implies #[trigger] ls[yy].len() <= 64 by {
        lemma_max_width(ls, n, yy);
    }
    lemma_max_width(ls, n, y);
    lemma_scan_complete(ls, n - 1, ls[n - 1].len() as int);
    lemma_scan_facts(ls, n - 1, ls[n - 1].len() as int);
    let w = b.spec_width() as int;
    let pl = b.spec_player();
    let pp = Position(pl.0, pl.1);
    assert(st.1 == Some(pp));
    assert(char_at(ls, pp.0 as int, pp.1 as int) matches Some(c) && is_player_char(c));
    let row = Seq::new(
        b.spec_width() as nat,
        |x: int| display_char(b.spec_tile(Position(x as u8, y as u8)), x == pl.0 && y == pl.1),
    );
    assert forall|x: int| 0 <= x < w implies #[trigger] row[x] == if x < ls[y].len() {
        ls[y][x]
    } else {
        ' '
    } by {
        let p = Position(x as u8, y as u8);
        assert(on_grid(p));
        assert(b.spec_tile(p) == board_tile(char_at(ls, x, y)));
        if x < ls[y].len() {
            let c = ls[y][x];
            assert(scanned(ls, x, y, ls[n - 1].len() as int, n - 1));
            assert(is_board_char(c));
            if is_player_char(c) {
                assert(p == pp);
            } else {
                assert(p != pp);
            }
        } else {
            assert(p != pp);
        }
    }
    lemma_trim_padded(ls[y], row);
}

proof fn lemma_board_print_rows(b: Board, t: Seq<char>, k: int)
    requires
        parse_error(t) is None,
        b.matches_text(t),
        0 <= k <= lines(t).len(),
    ensures
        b.display_upto(k) == normal_lines(lines(t), k),
    decreases k,
{
    if k > 0 {
        lemma_board_print_rows(b, t, k - 1);
        lemma_board_print_row(b, t, k - 1);
    }
}

/// Printing a board read from a text gives back the text's lines, each
/// without its trailing spaces and ended by a line break.
pub proof fn lemma_board_print_read(b: Board, t: Seq<char>)
    requires
        parse_error(t) is None,
        b.matches_text(t),
    ensures
        b.display_upto(b.spec_height() as int) == normal_lines(lines(t), lines(t).len() as int),
{
    lemma_board_print_rows(b, t, lines(t).len() as int);
}

/// Some square of the region has the number `k`.
pub open spec fn numbered(idx: Seq<u8>, region: Set<Position>, k: int) -> bool {
    exists|p: Position| #[trigger] region.contains(p) && idx[cell(p)] == k
}

/// The numbers of a numbered region are exactly the numbers below its
/// size: each of them numbers one of its squares.
pub proof fn lemma_numbers_onto(idx: Seq<u8>, region: Set<Position>)
    requires
        numbers_region(idx, region),
    ensures
        region.finite(),
        forall|k: int| 0 <= k < region.len() ==> #[trigger] numbered(idx, region, k),
{
    assert(region.subset_of(crate::reach::grid()));
    lemma_grid_finite(region);
    let f = |p: Position| idx[cell(p)] as int;
    let img = region.map(f);
    assert(vstd::relations::injective_on(f, region)) by {
        assert forall|p: Position, q: Position| region.contains(p) && region.contains(q) && #[trigger] f(p) == #[trigger] f(q) implies p == q by {
        }
    }
    vstd::set_lib::lemma_map_size(region, img, f);
    let range = vstd::set_lib::set_int_range(0, region.len() as int);
    vstd::set_lib::lemma_int_range(0, region.len() as int);
    assert(img.subset_of(range)) by {
        assert forall|k: int| img.contains(k) implies range.contains(k) by {
            let p = choose|p: Position| region.contains(p) && f(p) == k;
        }
    }
    vstd::set_lib::lemma_subset_equality(img, range);
    assert forall|k: int| 0 <= k < region.len() implies #[trigger] numbered(idx, region, k) by {
        assert(range.contains(k));
        assert(img.contains(k));
        let p = choose|p: Position| region.contains(p) && f(p) == k;
        assert(region.contains(p) && idx[cell(p)] == k);
    }
}

/// A board read from a text is solved exactly when the text has no goal
/// without a box: no `.` and no `+`.
pub proof fn lemma_solved_read(b: Board, t: Seq<char>)
    requires
        parse_error(t) is None,
        b.matches_text(t),
    ensures
        b.spec_empty_goals() == 0 <==> crate::text::count_chars(
            lines(t),
            |c: char| crate::text::is_empty_goal_char(c),
        ) == 0,
{
    let ls = lines(t);
    crate::text::lemma_scan_counts(ls, ls.len() - 1, ls[ls.len() - 1].len() as int);
}

} // verus!
