use core::marker::PhantomData;
use vstd::prelude::*;

use crate::bits::{Bitvector, BitvectorIter, Index};

verus! {

#[derive(Debug, Clone, Copy, PartialEq, Eq, Structural, Hash)]
pub enum Direction {
    Up,
    Down,
    Left,
    Right,
}

/// The number of a direction: Up 0, Down 1, Left 2, Right 3.
pub open spec fn dir_num(d: Direction) -> int {
    match d {
        Direction::Up => 0,
        Direction::Down => 1,
        Direction::Left => 2,
        Direction::Right => 3,
    }
}

/// The direction with number `i` (below 4).
pub open spec fn dir_at(i: int) -> Direction {
    if i == 0 {
        Direction::Up
    } else if i == 1 {
        Direction::Down
    } else if i == 2 {
        Direction::Left
    } else {
        Direction::Right
    }
}

pub open spec fn opposite(d: Direction) -> Direction {
    match d {
        Direction::Up => Direction::Down,
        Direction::Down => Direction::Up,
        Direction::Left => Direction::Right,
        Direction::Right => Direction::Left,
    }
}

/// The change of `(x, y)` that one step in a direction makes.
pub open spec fn offset(d: Direction) -> (int, int) {
    match d {
        Direction::Up => (0, -1),
        Direction::Down => (0, 1),
        Direction::Left => (-1, 0),
        Direction::Right => (1, 0),
    }
}

pub proof fn lemma_dir_num(d: Direction)
    ensures
        0 <= dir_num(d) < 4,
        dir_at(dir_num(d)) == d,
        opposite(opposite(d)) == d,
        offset(opposite(d)).0 == -offset(d).0,
        offset(opposite(d)).1 == -offset(d).1,
{
}

impl Direction {
    pub fn reverse(&self) -> (r: Direction)
        ensures
            r == opposite(*self),
    {
        match self {
            Direction::Up => Direction::Down,
            Direction::Down => Direction::Up,
            Direction::Left => Direction::Right,
            Direction::Right => Direction::Left,
        }
    }

    pub fn delta(&self) -> (r: (i8, i8))
        ensures
            r.0 == offset(*self).0,
            r.1 == offset(*self).1,
    {
        match self {
            Direction::Up => (0, -1),
            Direction::Down => (0, 1),
            Direction::Left => (-1, 0),
            Direction::Right => (1, 0),
        }
    }

    pub fn index(&self) -> (r: usize)
        ensures
            r == dir_num(*self),
    {
        match self {
            Direction::Up => 0,
            Direction::Down => 1,
            Direction::Left => 2,
            Direction::Right => 3,
        }
    }

    pub fn from_index(idx: usize) -> (r: Direction)
        requires
            idx < 4,
        ensures
            r == dir_at(idx as int),
            dir_num(r) == idx,
    {
        if idx == 0 {
            Direction::Up
        } else if idx == 1 {
            Direction::Down
        } else if idx == 2 {
            Direction::Left
        } else {
            Direction::Right
        }
    }

    /// The name of the direction.
    pub fn name(&self) -> (r: &'static str)
        ensures
            r@ == dir_name(*self),
    {
        match self {
            Direction::Up => "Up",
            Direction::Down => "Down",
            Direction::Left => "Left",
            Direction::Right => "Right",
        }
    }
}

pub open spec fn dir_name(d: Direction) -> Seq<char> {
    match d {
        Direction::Up => "Up"@,
        Direction::Down => "Down"@,
        Direction::Left => "Left"@,
        Direction::Right => "Right"@,
    }
}

/// A box move: the box's index and the direction in which the box moves.
pub trait Move: Sized + Copy {
    spec fn spec_box_index(&self) -> Index;

    spec fn spec_direction(&self) -> Direction;

    fn new(box_index: Index, direction: Direction) -> (r: Self)
        ensures
            r.spec_box_index() == box_index,
            r.spec_direction() == direction,
    ;

    fn box_index(&self) -> (r: Index)
        ensures
            r == self.spec_box_index(),
    ;

    fn direction(&self) -> (r: Direction)
        ensures
            r == self.spec_direction(),
    ;
}

/// A push of a box one square in `direction`.
#[derive(Debug, Clone, Copy, PartialEq, Eq, Structural, Hash)]
pub struct Push {
    pub box_index: Index,
    pub direction: Direction,
}

/// A pull of a box one square in `direction`: the inverse of a push.
#[derive(Debug, Clone, Copy, PartialEq, Eq, Structural, Hash)]
pub struct Pull {
    pub box_index: Index,
    pub direction: Direction,
}

impl Push {
    pub fn new(box_index: Index, direction: Direction) -> (r: Self)
        ensures
            r.box_index == box_index,
            r.direction == direction,
    {
        Self { box_index, direction }
    }

    /// The pull that undoes this push.
    pub fn to_pull(self) -> (r: Pull)
        ensures
            r.box_index == self.box_index,
            r.direction == opposite(self.direction),
    {
        Pull { box_index: self.box_index, direction: self.direction.reverse() }
    }
}

impl Pull {
    pub fn new(box_index: Index, direction: Direction) -> (r: Self)
        ensures
            r.box_index == box_index,
            r.direction == direction,
    {
        Self { box_index, direction }
    }

    /// The push that undoes this pull.
    pub fn to_push(self) -> (r: Push)
        ensures
            r.box_index == self.box_index,
            r.direction == opposite(self.direction),
    {
        Push { box_index: self.box_index, direction: self.direction.reverse() }
    }
}

impl Move for Push {
    open spec fn spec_box_index(&self) -> Index {
        self.box_index
    }

    open spec fn spec_direction(&self) -> Direction {
        self.direction
    }

    fn new(box_index: Index, direction: Direction) -> (r: Self) {
        Self { box_index, direction }
    }

    fn box_index(&self) -> (r: Index) {
        self.box_index
    }

    fn direction(&self) -> (r: Direction) {
        self.direction
    }
}

impl Move for Pull {
    open spec fn spec_box_index(&self) -> Index {
        self.box_index
    }

    open spec fn spec_direction(&self) -> Direction {
        self.direction
    }

    fn new(box_index: Index, direction: Direction) -> (r: Self) {
        Self { box_index, direction }
    }

    fn box_index(&self) -> (r: Index) {
        self.box_index
    }

    fn direction(&self) -> (r: Direction) {
        self.direction
    }
}

/// A set of moves: for each direction, the set of boxes that can move that way.
#[derive(Debug, PartialEq, Eq)]
pub struct Moves<T> {
    bits: [Bitvector; 4],
    phantom: PhantomData<T>,
}

impl<T> Clone for Moves<T> {
    fn clone(&self) -> (r: Self)
        ensures
            r@ == self@,
    {
        Moves { bits: self.bits, phantom: PhantomData }
    }
}

impl<T> Copy for Moves<T> {

}

impl<T> View for Moves<T> {
    /// The moves as pairs of a direction number and a box index.
    type V = Set<(int, int)>;

    closed spec fn view(&self) -> Set<(int, int)> {
        Set::new(|m: (int, int)| 0 <= m.0 < 4 && self.bits@[m.0]@.contains(m.1))
    }
}

/// The pair that stands for a move in the view of `Moves`.
pub open spec fn move_key<T: Move>(m: T) -> (int, int) {
    (dir_num(m.spec_direction()), m.spec_box_index().0 as int)
}

/// The number of moves in a set: the sizes of its four direction sets.
pub open spec fn moves_count(s: Set<(int, int)>) -> nat {
    s.filter(|m: (int, int)| m.0 == 0).len() + s.filter(|m: (int, int)| m.0 == 1).len() + s.filter(
        |m: (int, int)| m.0 == 2,
    ).len() + s.filter(|m: (int, int)| m.0 == 3).len()
}

/// The members of a set of moves in the order in which an iterator hands them
/// out: by direction number, then by box index.
pub open spec fn move_before(a: (int, int), b: (int, int)) -> bool {
    a.0 < b.0 || (a.0 == b.0 && a.1 <= b.1)
}

impl<T: Move> Moves<T> {
    /// The moves of one direction, as pairs.
    closed spec fn row(&self, k: int) -> Set<(int, int)> {
        self.bits@[k]@.map(|i: int| (k, i))
    }

    proof fn lemma_row(&self, k: int)
        requires
            0 <= k < 4,
        ensures
            self.row(k).finite(),
            self.row(k).len() == self.bits@[k]@.len(),
            self.row(k) =~= self@.filter(|m: (int, int)| m.0 == k),
    {
        let b = self.bits@[k];
        b.lemma_bounded();
        b@.lemma_map_finite(|i: int| (k, i));
        vstd::set_lib::lemma_map_size(b@, self.row(k), |i: int| (k, i));
        assert forall|m: (int, int)| #[trigger] self.row(k).contains(m) == self@.filter(|m: (int, int)| m.0 == k).contains(m) by {
            if self@.contains(m) && m.0 == k {
                assert(b@.contains(m.1));
                assert(self.row(k).contains((k, m.1)));
            }
        }
    }

    /// Every move's box index lies in `0..64`, and the set is finite.
    pub proof fn lemma_bounded(&self)
        ensures
            self@.finite(),
            forall|m: (int, int)| #[trigger] self@.contains(m) ==> 0 <= m.0 < 4 && 0 <= m.1 < 64,
    {
        self.lemma_row(0);
        self.lemma_row(1);
        self.lemma_row(2);
        self.lemma_row(3);
        assert(self@ =~= self.row(0).union(self.row(1)).union(self.row(2)).union(self.row(3))) by {
            assert forall|m: (int, int)| #[trigger] self@.contains(m) implies self.row(0).union(self.row(1)).union(self.row(2)).union(self.row(3)).contains(m) by {
                assert(self@.filter(|m: (int, int)| m.0 == m.0).contains(m) || true);
                if m.0 == 0 { assert(self@.filter(|m: (int, int)| m.0 == 0).contains(m)); }
                else if m.0 == 1 { assert(self@.filter(|m: (int, int)| m.0 == 1).contains(m)); }
                else if m.0 == 2 { assert(self@.filter(|m: (int, int)| m.0 == 2).contains(m)); }
                else { assert(self@.filter(|m: (int, int)| m.0 == 3).contains(m)); }
            }
        }
        assert forall|m: (int, int)| #[trigger] self@.contains(m) implies 0 <= m.0 < 4 && 0 <= m.1 < 64 by {
            let b = self.bits@[m.0];
            b.lemma_bounded();
        }
    }

    pub fn new() -> (r: Self)
        ensures
            r@ =~= Set::<(int, int)>::empty(),
    {
        let empty = Bitvector::new();
        Moves { bits: [empty, empty, empty, empty], phantom: PhantomData }
    }

    pub fn add(&mut self, box_index: Index, direction: Direction)
        requires
            box_index.0 < 64,
        ensures
            final(self)@ =~= old(self)@.insert((dir_num(direction), box_index.0 as int)),
    {
        let dir_idx = direction.index();
        let mut row = self.bits[dir_idx];
        row.add(box_index);
        self.bits[dir_idx] = row;
    }

    pub fn len(&self) -> (r: usize)
        ensures
            r == moves_count(self@),
            r <= 256,
    {
        let a = self.bits[0].len();
        let b = self.bits[1].len();
        let c = self.bits[2].len();
        let d = self.bits[3].len();
        proof {
            self.lemma_row(0);
            self.lemma_row(1);
            self.lemma_row(2);
            self.lemma_row(3);
        }
        a + b + c + d
    }

    /// The boxes that have at least one move.
    pub fn boxes(&self) -> (r: Bitvector)
        ensures
            forall|i: int| #[trigger] r@.contains(i) <==> exists|d: int| #[trigger]
                self@.contains((d, i)),
    {
        let r = self.bits[0].union(&self.bits[1]).union(&self.bits[2]).union(&self.bits[3]);
        proof {
            assert forall|i: int| #[trigger] r@.contains(i) implies exists|d: int| #[trigger]
                self@.contains((d, i)) by {
                if self.bits@[0]@.contains(i) {
                    assert(self@.contains((0, i)));
                } else if self.bits@[1]@.contains(i) {
                    assert(self@.contains((1, i)));
                } else if self.bits@[2]@.contains(i) {
                    assert(self@.contains((2, i)));
                } else {
                    assert(self@.contains((3, i)));
                }
            }
        }
        r
    }

    pub fn is_empty(&self) -> (r: bool)
        ensures
            r == (self@ =~= Set::<(int, int)>::empty()),
    {
        let b = self.boxes();
        let r = b.is_empty();
        proof {
            if !r {
                let i = choose|i: int| b@.contains(i);
                let d = choose|d: int| self@.contains((d, i));
                assert(self@.contains((d, i)));
            } else {
                assert forall|m: (int, int)| !self@.contains(m) by {
                    if self@.contains(m) {
                        assert(b@.contains(m.1));
                    }
                }
            }
        }
        r
    }

    pub fn contains(&self, move_: T) -> (r: bool)
        requires
            move_.spec_box_index().0 < 64,
        ensures
            r == self@.contains(move_key(move_)),
    {
        let dir_idx = move_.direction().index();
        self.bits[dir_idx].contains(move_.box_index())
    }

    pub fn remove(&mut self, move_: T)
        requires
            move_.spec_box_index().0 < 64,
        ensures
            final(self)@ =~= old(self)@.remove(move_key(move_)),
    {
        let dir_idx = move_.direction().index();
        let mut row = self.bits[dir_idx];
        row.remove(move_.box_index());
        self.bits[dir_idx] = row;
    }

    /// An iterator over the moves, by direction number and then box index.
    pub fn iter(&self) -> (r: MovesIter<T>)
        ensures
            r@ == self@,
            r.inv(),
    {
        let r = MovesIter {
            bits: self.bits,
            dir_idx: 0,
            current_iter: self.bits[0].iter(),
            phantom: PhantomData,
        };
        proof {
            assert(r@ =~= self@);
        }
        r
    }
}

impl<T: Move> Default for Moves<T> {
    fn default() -> (r: Self)
        ensures
            r@ == Set::<(int, int)>::empty(),
    {
        Self::new()
    }
}

/// The bit sets of a move set with each direction swapped for its opposite.
fn swizzle_bits(bits: [Bitvector; 4]) -> (r: [Bitvector; 4])
    ensures
        r@ == seq![bits@[1], bits@[0], bits@[3], bits@[2]],
{
    let r = [bits[1], bits[0], bits[3], bits[2]];
    assert(r@ =~= seq![bits@[1], bits@[0], bits@[3], bits@[2]]);
    r
}

/// The move set with each move's direction reversed.
pub open spec fn reversed_moves(s: Set<(int, int)>) -> Set<(int, int)> {
    Set::new(|m: (int, int)| 0 <= m.0 < 4 && s.contains((dir_num(opposite(dir_at(m.0))), m.1)))
}

/// Reversing the moves twice gives them back: turning pushes into pulls and
/// the pulls back into pushes yields the same pushes, for every set of moves
/// a `Moves` can hold.
pub proof fn lemma_reverse_twice(s: Set<(int, int)>)
    requires
        forall|m: (int, int)| #[trigger] s.contains(m) ==> 0 <= m.0 < 4,
    ensures
        reversed_moves(reversed_moves(s)) == s,
{
    assert forall|m: (int, int)| #[trigger] reversed_moves(reversed_moves(s)).contains(m) == s.contains(m) by {
        if 0 <= m.0 < 4 {
            let d = dir_at(m.0);
            lemma_dir_num(d);
            lemma_dir_num(opposite(d));
            lemma_dir_num(dir_at(dir_num(opposite(d))));
        }
    }
    assert(reversed_moves(reversed_moves(s)) =~= s);
}

/// A set of moves counts as many moves as it holds: an iteration over it,
/// which hands out one member and drops it at each step, hands out that
/// many.
pub proof fn lemma_count_is_len(s: Set<(int, int)>)
    requires
        s.finite(),
        forall|m: (int, int)| #[trigger] s.contains(m) ==> 0 <= m.0 < 4,
    ensures
        moves_count(s) == s.len(),
{
    let f0 = s.filter(|m: (int, int)| m.0 == 0);
    let f1 = s.filter(|m: (int, int)| m.0 == 1);
    let f2 = s.filter(|m: (int, int)| m.0 == 2);
    let f3 = s.filter(|m: (int, int)| m.0 == 3);
    vstd::set_lib::lemma_len_subset(f0, s);
    vstd::set_lib::lemma_len_subset(f1, s);
    vstd::set_lib::lemma_len_subset(f2, s);
    vstd::set_lib::lemma_len_subset(f3, s);
    vstd::set_lib::lemma_set_disjoint_lens(f0, f1);
    vstd::set_lib::lemma_set_disjoint_lens(f0 + f1, f2);
    vstd::set_lib::lemma_set_disjoint_lens(f0 + f1 + f2, f3);
    assert(f0 + f1 + f2 + f3 =~= s);
}

/// Adding a move counts one more move, unless the set held it already.
pub proof fn lemma_add_count(s: Set<(int, int)>, m: (int, int))
    requires
        s.finite(),
        forall|k: (int, int)| #[trigger] s.contains(k) ==> 0 <= k.0 < 4,
        0 <= m.0 < 4,
    ensures
        moves_count(s.insert(m)) == moves_count(s) + if s.contains(m) {
            0int
        } else {
            1int
        },
{
    lemma_count_is_len(s);
    lemma_count_is_len(s.insert(m));
}

/// Reversing the moves keeps their count.
pub proof fn lemma_reverse_count(s: Set<(int, int)>)
    requires
        s.finite(),
        forall|m: (int, int)| #[trigger] s.contains(m) ==> 0 <= m.0 < 4,
    ensures
        moves_count(reversed_moves(s)) == moves_count(s),
{
    let f = |m: (int, int)| (dir_num(opposite(dir_at(m.0))), m.1);
    assert forall|m: (int, int)| 0 <= m.0 < 4 implies f(f(m)) == m && 0 <= #[trigger] f(m).0 < 4 by {
        let d = dir_at(m.0);
        lemma_dir_num(d);
        lemma_dir_num(opposite(d));
        lemma_dir_num(dir_at(dir_num(opposite(d))));
    }
    assert(vstd::relations::injective_on(f, s)) by {
        assert forall|a: (int, int), b: (int, int)| s.contains(a) && s.contains(b) && #[trigger] f(a) == #[trigger] f(b) implies a == b by {
            assert(f(f(a)) == a);
            assert(f(f(b)) == b);
        }
    }
    assert(s.map(f) =~= reversed_moves(s)) by {
        assert forall|m: (int, int)| #[trigger] reversed_moves(s).contains(m) implies s.map(f).contains(m) by {
            assert(s.contains(f(m)));
            assert(f(f(m)) == m);
        }
        assert forall|m: (int, int)| #[trigger] s.map(f).contains(m) implies reversed_moves(s).contains(m) by {
            let a = choose|a: (int, int)| s.contains(a) && f(a) == m;
            assert(f(f(a)) == a);
        }
    }
    vstd::set_lib::lemma_map_size(s, reversed_moves(s), f);
    lemma_count_is_len(s);
    assert forall|m: (int, int)| #[trigger] reversed_moves(s).contains(m) implies 0 <= m.0 < 4 by {}
    lemma_count_is_len(reversed_moves(s));
}

impl Moves<Push> {
    /// The pulls that undo these pushes.
    pub fn to_pulls(self) -> (r: Moves<Pull>)
        ensures
            r@ =~= reversed_moves(self@),
    {
        Moves { bits: swizzle_bits(self.bits), phantom: PhantomData }
    }
}

impl Moves<Pull> {
    /// The pushes that undo these pulls.
    pub fn to_pushes(self) -> (r: Moves<Push>)
        ensures
            r@ =~= reversed_moves(self@),
    {
        Moves { bits: swizzle_bits(self.bits), phantom: PhantomData }
    }
}

/// Hands out the moves of a `Moves`, by direction number and then box index.
pub struct MovesIter<T> {
    bits: [Bitvector; 4],
    dir_idx: usize,
    current_iter: BitvectorIter,
    phantom: PhantomData<T>,
}

impl<T> View for MovesIter<T> {
    type V = Set<(int, int)>;

    /// The moves not yet handed out.
    closed spec fn view(&self) -> Set<(int, int)> {
        Set::new(
            |m: (int, int)|
                0 <= m.0 < 4 && ((m.0 == self.dir_idx && self.current_iter@.contains(m.1)) || (
                m.0 > self.dir_idx && self.bits@[m.0]@.contains(m.1))),
        )
    }
}

impl<T: Move> MovesIter<T> {
    pub closed spec fn inv(&self) -> bool {
        self.dir_idx <= 4
    }

    /// Hands out the first remaining move, or `None` when none is left.
    pub fn next(&mut self) -> (r: Option<T>)
        requires
            old(self).inv(),
        ensures
            final(self).inv(),
            r is None ==> old(self)@ =~= Set::<(int, int)>::empty(),
            r is Some ==> {
                &&& old(self)@.contains(move_key(r->0))
                &&& r->0.spec_box_index().0 < 64
                &&& forall|k: (int, int)| #[trigger] old(self)@.contains(k) ==> move_before(
                    move_key(r->0),
                    k,
                )
                &&& final(self)@ =~= old(self)@.remove(move_key(r->0))
            },
    {
        loop
            invariant
                self.dir_idx <= 4,
                self@ =~= old(self)@,
            decreases 4 - self.dir_idx,
        {
            if self.dir_idx >= 4 {
                return None;
            }
            let ghost before = self@;
            let ghost cur = self.current_iter@;
            let ghost cur_iter = self.current_iter;
            if let Some(box_index) = self.current_iter.next() {
                let direction = Direction::from_index(self.dir_idx);
                let m = T::new(box_index, direction);
                proof {
                    self.current_iter.lemma_bounded();
                    assert(cur.contains(box_index.0 as int));
                    assert(move_key(m) == (self.dir_idx as int, box_index.0 as int));
                    assert(before.contains(move_key(m)));
                    assert(self@ =~= before.remove(move_key(m)));
                    assert forall|k: (int, int)| #[trigger] before.contains(k) implies move_before(
                        move_key(m),
                        k,
                    ) by {
                        if k.0 == self.dir_idx {
                            assert(cur.contains(k.1));
                        }
                    }
                    assert(box_index.0 < 64) by {
                        cur_iter.lemma_bounded();
                    }
                }
                return Some(m);
            }
            self.dir_idx = self.dir_idx + 1;
            if self.dir_idx < 4 {
                self.current_iter = self.bits[self.dir_idx].iter();
            }
        }
    }
}

} // verus!
