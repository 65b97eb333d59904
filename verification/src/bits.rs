use vstd::prelude::*;

verus! {

/// The index of a box (or of a goal) within a game.
#[derive(Debug, Clone, Copy, PartialEq, Eq, Structural, PartialOrd, Ord, Hash)]
pub struct Index(pub u8);

/// A square of the board: `Position(x, y)`.
#[derive(Debug, Clone, Copy, PartialEq, Eq, Structural, PartialOrd, Ord, Hash)]
pub struct Position(pub u8, pub u8);

/// Whether bit `i` of `x` is set.
pub open spec fn bit(x: u64, i: u64) -> bool {
    (x >> i) & 1u64 == 1u64
}

/// The set of bit numbers below 64 that are set in `x`.
pub open spec fn bits_of(x: u64) -> Set<int> {
    Set::new(|i: int| 0 <= i < 64 && bit(x, i as u64))
}

/// The number of bits below `n` that are set in `x`.
pub open spec fn count_bits(x: u64, n: nat) -> nat
    decreases n,
{
    if n == 0 {
        0
    } else {
        count_bits(x, (n - 1) as nat) + if bit(x, (n - 1) as u64) {
            1nat
        } else {
            0nat
        }
    }
}

/// Whether a position lies on the 64 x 64 grid that a bitboard covers.
pub open spec fn on_grid(p: Position) -> bool {
    p.0 < 64 && p.1 < 64
}

/// Whether `p` comes before `q` in reading order (by row, then by column).
pub open spec fn reading_le(p: Position, q: Position) -> bool {
    p.1 < q.1 || (p.1 == q.1 && p.0 <= q.0)
}

pub proof fn lemma_bit_or_single(x: u64, i: u64, j: u64)
    requires
        i < 64,
        j < 64,
    ensures
        bit(x | (1u64 << i), j) == (j == i || bit(x, j)),
{
    assert(((x | (1u64 << i)) >> j) & 1u64 == 1u64 <==> (j == i || (x >> j) & 1u64 == 1u64))
        by (bit_vector)
        requires
            i < 64,
            j < 64,
    ;
}

pub proof fn lemma_bit_and_not_single(x: u64, i: u64, j: u64)
    requires
        i < 64,
        j < 64,
    ensures
        bit(x & !(1u64 << i), j) == (j != i && bit(x, j)),
{
    assert(((x & !(1u64 << i)) >> j) & 1u64 == 1u64 <==> (j != i && (x >> j) & 1u64 == 1u64))
        by (bit_vector)
        requires
            i < 64,
            j < 64,
    ;
}

pub proof fn lemma_bit_test(x: u64, i: u64)
    requires
        i < 64,
    ensures
        ((x & (1u64 << i)) != 0) == bit(x, i),
{
    assert(((x & (1u64 << i)) != 0) <==> ((x >> i) & 1u64 == 1u64)) by (bit_vector)
        requires
            i < 64,
    ;
}

pub proof fn lemma_bit_ops(x: u64, y: u64, j: u64)
    requires
        j < 64,
    ensures
        bit(x | y, j) == (bit(x, j) || bit(y, j)),
        bit(x & y, j) == (bit(x, j) && bit(y, j)),
        bit(x & !y, j) == (bit(x, j) && !bit(y, j)),
        bit(!x, j) == !bit(x, j),
{
    assert(((x | y) >> j) & 1u64 == 1u64 <==> ((x >> j) & 1u64 == 1u64 || (y >> j) & 1u64
        == 1u64)) by (bit_vector)
        requires
            j < 64,
    ;
    assert(((x & y) >> j) & 1u64 == 1u64 <==> ((x >> j) & 1u64 == 1u64 && (y >> j) & 1u64
        == 1u64)) by (bit_vector)
        requires
            j < 64,
    ;
    assert(((x & !y) >> j) & 1u64 == 1u64 <==> ((x >> j) & 1u64 == 1u64 && !((y >> j) & 1u64
        == 1u64))) by (bit_vector)
        requires
            j < 64,
    ;
    assert(((!x) >> j) & 1u64 == 1u64 <==> !((x >> j) & 1u64 == 1u64)) by (bit_vector)
        requires
            j < 64,
    ;
}

pub proof fn lemma_bit_zero(j: u64)
    ensures
        !bit(0u64, j),
{
    assert((0u64 >> j) & 1u64 != 1u64) by (bit_vector);
}

pub proof fn lemma_bit_all_ones(j: u64)
    requires
        j < 64,
    ensures
        bit(0xffff_ffff_ffff_ffffu64, j),
{
    assert((0xffff_ffff_ffff_ffffu64 >> j) & 1u64 == 1u64) by (bit_vector)
        requires
            j < 64,
    ;
}

pub proof fn lemma_bit_low_mask(n: u64, j: u64)
    requires
        n < 64,
        j < 64,
    ensures
        bit(((1u64 << n) - 1) as u64, j) == (j < n),
{
    assert(((((1u64 << n) - 1) as u64 >> j) & 1u64 == 1u64) <==> (j < n)) by (bit_vector)
        requires
            n < 64,
            j < 64,
    ;
}

/// `x` with its lowest set bit cleared.
pub open spec fn clear_lowest(x: u64) -> u64 {
    x & ((x - 1) as u64)
}

/// A nonzero word has its lowest set bit at `trailing_zeros`, and clearing
/// that bit leaves every other bit as it was.
pub proof fn lemma_lowest_bit(x: u64)
    requires
        x != 0,
    ensures
        x.trailing_zeros() < 64,
        bit(x, x.trailing_zeros() as u64),
        forall|j: u64| j < x.trailing_zeros() ==> !bit(x, j),
        forall|j: u64|
            j < 64 ==> #[trigger] bit(clear_lowest(x), j) == (j != x.trailing_zeros() && bit(x, j)),
{
    vstd::std_specs::bits::axiom_u64_trailing_zeros(x);
    let t = x.trailing_zeros() as u64;
    assert forall|j: u64| j < t implies !bit(x, j) by {
        assert((x >> j) & 1u64 == 0u64);
    }
    let y = clear_lowest(x);
    assert forall|j: u64| j < 64 implies #[trigger] bit(clear_lowest(x), j) == (j != t && bit(x, j)) by {
        if j < t {
            assert((x >> j) & 1u64 == 0u64);
            assert(x != 0 && t < 64 && (x >> t) & 1u64 == 1u64 && j < t && (x >> j) & 1u64 == 0u64
                ==> ((x & ((x - 1) as u64)) >> j) & 1u64 == 0u64) by (bit_vector);
        } else if j == t {
            let s = (64 - t) as u64;
            assert(x << s == 0);
            assert(x != 0 && t < 64 && s == 64 - t && (x >> t) & 1u64 == 1u64 && x << s == 0 ==> ((x
                & ((x - 1) as u64)) >> t) & 1u64 == 0u64) by (bit_vector);
        } else {
            assert(x != 0 && t < 64 && j < 64 && t < j && (x >> t) & 1u64 == 1u64 ==> (((x & ((x - 1) as u64)) >> j) & 1u64 == 1u64 <==> (x >> j) & 1u64 == 1u64)) by (bit_vector);
        }
    }
}

/// Zero has no set bit; any other word has one.
pub proof fn lemma_zero_iff_empty(x: u64)
    ensures
        (x == 0) == (bits_of(x) =~= Set::<int>::empty()),
{
    if x == 0 {
        assert forall|i: int| !bits_of(x).contains(i) by {
            lemma_bit_zero(i as u64);
        }
    } else {
        lemma_lowest_bit(x);
        assert(bits_of(x).contains(x.trailing_zeros() as int));
    }
}

pub proof fn lemma_count_bits(x: u64, n: nat)
    requires
        n <= 64,
    ensures
        Set::new(|i: int| 0 <= i < n && bit(x, i as u64)).finite(),
        Set::new(|i: int| 0 <= i < n && bit(x, i as u64)).len() == count_bits(x, n),
        count_bits(x, n) <= n,
    decreases n,
{
    let s = Set::new(|i: int| 0 <= i < n && bit(x, i as u64));
    if n == 0 {
        assert(s =~= Set::empty());
    } else {
        let m = (n - 1) as nat;
        lemma_count_bits(x, m);
        let s0 = Set::new(|i: int| 0 <= i < m && bit(x, i as u64));
        if bit(x, m as u64) {
            assert(s =~= s0.insert(m as int));
        } else {
            assert(s =~= s0);
        }
    }
}

pub proof fn lemma_bits_of_finite(x: u64)
    ensures
        bits_of(x).finite(),
        bits_of(x).len() == count_bits(x, 64),
        bits_of(x).len() <= 64,
{
    lemma_count_bits(x, 64);
    assert(bits_of(x) =~= Set::new(|i: int| 0 <= i < 64 && bit(x, i as u64)));
}

/// Counts the set bits of a word with `u64::count_ones`, which std documents as
/// the number of ones in the binary representation.
#[verifier::external_body]
fn popcount(x: u64) -> (r: u32)
    ensures
        r == count_bits(x, 64),
{
    x.count_ones()
}

/// A set of box indexes below 64, stored as the bits of a word.
#[derive(Debug, Default, Clone, Copy, PartialEq, Eq, Structural)]
pub struct Bitvector {
    bits: u64,
}

impl View for Bitvector {
    type V = Set<int>;

    closed spec fn view(&self) -> Set<int> {
        bits_of(self.bits)
    }
}

impl Bitvector {
    /// Every member lies in `0..64`, and the set is finite.
    pub proof fn lemma_bounded(&self)
        ensures
            self@.finite(),
            self@.len() <= 64,
            forall|i: int| #[trigger] self@.contains(i) ==> 0 <= i < 64,
    {
        lemma_bits_of_finite(self.bits);
    }

    pub fn new() -> (r: Self)
        ensures
            r@ =~= Set::<int>::empty(),
    {
        proof {
            lemma_zero_iff_empty(0);
        }
        Self { bits: 0 }
    }

    /// The set `{0, 1, ..., n - 1}`.
    pub fn full(n: u8) -> (r: Self)
        requires
            n <= 64,
        ensures
            r@ =~= Set::new(|i: int| 0 <= i < n),
    {
        let bits: u64 = if n == 64 {
            0xffff_ffff_ffff_ffffu64
        } else {
            assert((1u64 << n) >= 1) by (bit_vector)
                requires
                    n < 64,
            ;
            (1u64 << n) - 1
        };
        proof {
            assert forall|i: int| bits_of(bits).contains(i) <==> 0 <= i < n by {
                if 0 <= i < 64 {
                    if n == 64 {
                        lemma_bit_all_ones(i as u64);
                    } else {
                        lemma_bit_low_mask(n as u64, i as u64);
                    }
                }
            }
        }
        Self { bits }
    }

    pub fn contains(&self, index: Index) -> (r: bool)
        requires
            index.0 < 64,
        ensures
            r == self@.contains(index.0 as int),
    {
        proof {
            lemma_bit_test(self.bits, index.0 as u64);
        }
        (self.bits & (1u64 << index.0)) != 0
    }

    pub fn add(&mut self, index: Index)
        requires
            index.0 < 64,
        ensures
            final(self)@ =~= old(self)@.insert(index.0 as int),
    {
        let ghost old_bits = self.bits;
        self.bits = self.bits | (1u64 << index.0);
        proof {
            assert forall|i: int| 0 <= i < 64 implies #[trigger] bit(self.bits, i as u64) == (i == index.0
                || bit(old_bits, i as u64)) by {
                lemma_bit_or_single(old_bits, index.0 as u64, i as u64);
            }
        }
    }

    pub fn remove(&mut self, index: Index)
        requires
            index.0 < 64,
        ensures
            final(self)@ =~= old(self)@.remove(index.0 as int),
    {
        let ghost old_bits = self.bits;
        self.bits = self.bits & !(1u64 << index.0);
        proof {
            assert forall|i: int| 0 <= i < 64 implies #[trigger] bit(self.bits, i as u64) == (i != index.0
                && bit(old_bits, i as u64)) by {
                lemma_bit_and_not_single(old_bits, index.0 as u64, i as u64);
            }
        }
    }

    pub fn is_empty(&self) -> (r: bool)
        ensures
            r == (self@ =~= Set::<int>::empty()),
    {
        proof {
            lemma_zero_iff_empty(self.bits);
        }
        self.bits == 0
    }

    pub fn len(&self) -> (r: usize)
        ensures
            r == self@.len(),
            r <= 64,
    {
        proof {
            lemma_bits_of_finite(self.bits);
        }
        popcount(self.bits) as usize
    }

    pub fn union(&self, other: &Bitvector) -> (r: Bitvector)
        ensures
            r@ =~= self@.union(other@),
    {
        let r = Bitvector { bits: self.bits | other.bits };
        proof {
            assert forall|i: int| 0 <= i < 64 implies #[trigger] bit(r.bits, i as u64) == (bit(
                self.bits,
                i as u64,
            ) || bit(other.bits, i as u64)) by {
                lemma_bit_ops(self.bits, other.bits, i as u64);
            }
        }
        r
    }

    /// Whether the two sets share a member.
    pub fn contains_any(&self, other: &Bitvector) -> (r: bool)
        ensures
            r == !(self@.intersect(other@) =~= Set::<int>::empty()),
    {
        let both = self.bits & other.bits;
        proof {
            assert forall|i: int| 0 <= i < 64 implies #[trigger] bit(both, i as u64) == (bit(
                self.bits,
                i as u64,
            ) && bit(other.bits, i as u64)) by {
                lemma_bit_ops(self.bits, other.bits, i as u64);
            }
            assert(bits_of(both) =~= self@.intersect(other@));
            lemma_zero_iff_empty(both);
        }
        both != 0
    }

    /// Whether every member of `other` is a member of `self`.
    pub fn contains_all(&self, other: &Bitvector) -> (r: bool)
        ensures
            r == other@.subset_of(self@),
    {
        let missing = other.bits & !self.bits;
        proof {
            assert forall|i: int| 0 <= i < 64 implies #[trigger] bit(missing, i as u64) == (bit(
                other.bits,
                i as u64,
            ) && !bit(self.bits, i as u64)) by {
                lemma_bit_ops(other.bits, self.bits, i as u64);
            }
            assert(bits_of(missing) =~= other@.difference(self@));
            lemma_zero_iff_empty(missing);
            if missing != 0 {
                assert(!(bits_of(missing) =~= Set::<int>::empty()));
                let w = choose|i: int| bits_of(missing).contains(i);
                assert(other@.contains(w) && !self@.contains(w));
            } else {
                assert forall|i: int| other@.contains(i) implies self@.contains(i) by {
                    assert(!bits_of(missing).contains(i));
                }
            }
        }
        missing == 0
    }

    /// Removes every member of `other`.
    pub fn remove_all(&mut self, other: &Bitvector)
        ensures
            final(self)@ =~= old(self)@.difference(other@),
    {
        let ghost old_bits = self.bits;
        self.bits = self.bits & !other.bits;
        proof {
            assert forall|i: int| 0 <= i < 64 implies #[trigger] bit(self.bits, i as u64) == (bit(
                old_bits,
                i as u64,
            ) && !bit(other.bits, i as u64)) by {
                lemma_bit_ops(old_bits, other.bits, i as u64);
            }
        }
    }

    /// An iterator over the members, in increasing order.
    pub fn iter(&self) -> (r: BitvectorIter)
        ensures
            r@ == self@,
    {
        BitvectorIter { bits: self.bits }
    }
}

/// Hands out the members of a `Bitvector` in increasing order.
pub struct BitvectorIter {
    bits: u64,
}

impl View for BitvectorIter {
    type V = Set<int>;

    /// The members not yet handed out.
    closed spec fn view(&self) -> Set<int> {
        bits_of(self.bits)
    }
}

/// `v` is what handing out the least member of `s` and dropping it, until
/// none is left, gives, as `BitvectorIter::next` does.
pub open spec fn least_first(s: Set<int>, v: Seq<int>) -> bool
    decreases v.len(),
{
    if v.len() == 0 {
        s =~= Set::<int>::empty()
    } else {
        &&& s.contains(v[0])
        &&& forall|j: int| #[trigger] s.contains(j) ==> v[0] <= j
        &&& least_first(s.remove(v[0]), v.drop_first())
    }
}

/// Collecting an iteration over a set of indexes gives its members, each
/// once, in increasing order.
pub proof fn lemma_least_first(s: Set<int>, v: Seq<int>)
    requires
        s.finite(),
        least_first(s, v),
    ensures
        forall|i: int, j: int| 0 <= i < j < v.len() ==> #[trigger] v[i] < #[trigger] v[j],
        forall|x: int| #[trigger] v.contains(x) <==> s.contains(x),
        v.len() == s.len(),
    decreases v.len(),
{
    if v.len() == 0 {
        assert(s =~= Set::<int>::empty());
    } else {
        let t = s.remove(v[0]);
        let w = v.drop_first();
        lemma_least_first(t, w);
        assert forall|i: int, j: int| 0 <= i < j < v.len() implies #[trigger] v[i] < #[trigger] v[j] by {
            if i > 0 {
                assert(v[i] == w[i - 1] && v[j] == w[j - 1]);
            } else {
                assert(v[j] == w[j - 1]);
                assert(w.contains(w[j - 1]));
                assert(t.contains(v[j]));
            }
        }
        assert forall|x: int| #[trigger] v.contains(x) <==> s.contains(x) by {
            if v.contains(x) && x != v[0] {
                let k = choose|k: int| 0 <= k < v.len() && v[k] == x;
                assert(w[k - 1] == x);
                assert(w.contains(x));
            }
            if s.contains(x) && x != v[0] {
                assert(t.contains(x));
                assert(w.contains(x));
                let k = choose|k: int| 0 <= k < w.len() && w[k] == x;
                assert(w[k] == v[k + 1]);
                assert(v.contains(x));
            }
            if x == v[0] {
                assert(v[0] == x);
            }
        }
    }
}

impl BitvectorIter {
    /// The remaining members are finite and lie in `0..64`.
    pub proof fn lemma_bounded(&self)
        ensures
            self@.finite(),
            self@.len() <= 64,
            forall|i: int| #[trigger] self@.contains(i) ==> 0 <= i < 64,
    {
        lemma_bits_of_finite(self.bits);
    }

    /// Hands out the smallest remaining member, or `None` when none is left.
    pub fn next(&mut self) -> (r: Option<Index>)
        ensures
            old(self)@.finite(),
            match r {
                None => old(self)@ =~= Set::<int>::empty() && final(self)@ == old(self)@,
                Some(index) => {
                    &&& old(self)@.contains(index.0 as int)
                    &&& forall|j: int| #[trigger] old(self)@.contains(j) ==> index.0 <= j
                    &&& final(self)@ =~= old(self)@.remove(index.0 as int)
                    &&& final(self)@.len() + 1 == old(self)@.len()
                },
            },
    {
        proof {
            lemma_bits_of_finite(self.bits);
            lemma_zero_iff_empty(self.bits);
        }
        if self.bits == 0 {
            None
        } else {
            let ghost old_bits = self.bits;
            let index = self.bits.trailing_zeros() as u8;
            self.bits = self.bits & (self.bits - 1);
            assert(self.bits == clear_lowest(old_bits));
            proof {
                lemma_lowest_bit(old_bits);
                assert(bits_of(self.bits) =~= bits_of(old_bits).remove(index as int));
                assert forall|j: int| #[trigger] bits_of(old_bits).contains(j) implies index <= j by {
                    if j < index {
                        assert(!bit(old_bits, j as u64));
                    }
                }
            }
            Some(Index(index))
        }
    }
}

/// A set of grid squares in which each row is only cleared on first use, so
/// that an empty board is cheap to make and to clear.
pub struct LazyBitboard {
    data: [u64; 64],
    initialized: u64,
}

impl View for LazyBitboard {
    type V = Set<Position>;

    closed spec fn view(&self) -> Set<Position> {
        Set::new(
            |p: Position|
                on_grid(p) && bit(self.initialized, p.1 as u64) && bit(
                    self.data@[p.1 as int],
                    p.0 as u64,
                ),
        )
    }
}

impl LazyBitboard {
    /// Every member lies on the grid.
    pub proof fn lemma_on_grid(&self)
        ensures
            forall|p: Position| #[trigger] self@.contains(p) ==> on_grid(p),
    {
    }

    pub fn new() -> (r: Self)
        ensures
            r@ =~= Set::<Position>::empty(),
    {
        let r = Self { data: [0u64; 64], initialized: 0 };
        proof {
            assert forall|p: Position| !r@.contains(p) by {
                lemma_bit_zero(p.1 as u64);
            }
        }
        r
    }

    pub fn get(&self, pos: Position) -> (r: bool)
        requires
            on_grid(pos),
        ensures
            r == self@.contains(pos),
    {
        let y = pos.1 as usize;
        proof {
            lemma_bit_test(self.initialized, y as u64);
        }
        if (self.initialized & (1u64 << y)) == 0 {
            false
        } else {
            proof {
                lemma_bit_test(self.data@[y as int], pos.0 as u64);
            }
            (self.data[y] & (1u64 << pos.0)) != 0
        }
    }

    pub fn set(&mut self, pos: Position)
        requires
            on_grid(pos),
        ensures
            final(self)@ =~= old(self)@.insert(pos),
    {
        let y = pos.1 as usize;
        let ghost old_view = self@;
        proof {
            lemma_bit_test(self.initialized, y as u64);
        }
        if (self.initialized & (1u64 << y)) == 0 {
            let ghost old_init = self.initialized;
            self.data[y] = 0;
            self.initialized = self.initialized | (1u64 << y);
            proof {
                assert forall|j: u64| j < 64 implies bit(self.initialized, j) == (j == y || bit(
                    old_init,
                    j,
                )) by {
                    lemma_bit_or_single(old_init, y as u64, j);
                }
                assert forall|j: u64| #![trigger bit(0u64, j)] !bit(0u64, j) by {
                    lemma_bit_zero(j);
                }
                assert(self@ =~= old_view);
            }
        }
        let ghost mid_data = self.data@;
        let ghost mid_view = self@;
        let row = self.data[y] | (1u64 << pos.0);
        self.data[y] = row;
        proof {
            assert forall|j: u64| j < 64 implies bit(row, j) == (j == pos.0 || bit(
                mid_data[y as int],
                j,
            )) by {
                lemma_bit_or_single(mid_data[y as int], pos.0 as u64, j);
            }
            assert(self@ =~= mid_view.insert(pos));
        }
    }

    pub fn clear(&mut self)
        ensures
            final(self)@ =~= Set::<Position>::empty(),
    {
        self.initialized = 0;
        proof {
            assert forall|p: Position| !self@.contains(p) by {
                lemma_bit_zero(p.1 as u64);
            }
        }
    }

    /// Adds every member of `other`.
    pub fn set_all(&mut self, other: &LazyBitboard)
        ensures
            final(self)@ =~= old(self)@.union(other@),
    {
        let mut y: usize = 0;
        while y < 64
            invariant
                y <= 64,
                self@ =~= old(self)@.union(
                    other@.filter(|p: Position| (p.1 as int) < (y as int)),
                ),
            decreases 64 - y,
        {
            let ghost before = self@;
            let ghost other_row = Set::new(|p: Position| p.1 == y && other@.contains(p));
            proof {
                lemma_bit_test(other.initialized, y as u64);
            }
            if (other.initialized & (1u64 << y)) != 0 {
                proof {
                    lemma_bit_test(self.initialized, y as u64);
                }
                if (self.initialized & (1u64 << y)) == 0 {
                    let ghost old_init = self.initialized;
                    self.data[y] = other.data[y];
                    self.initialized = self.initialized | (1u64 << y);
                    proof {
                        assert forall|j: u64| j < 64 implies bit(self.initialized, j) == (j == y
                            || bit(old_init, j)) by {
                            lemma_bit_or_single(old_init, y as u64, j);
                        }
                        assert(self@ =~= before.union(other_row));
                    }
                } else {
                    let ghost old_row = self.data@[y as int];
                    let row = self.data[y] | other.data[y];
                    self.data[y] = row;
                    proof {
                        assert forall|j: u64| j < 64 implies bit(row, j) == (bit(old_row, j) || bit(
                            other.data@[y as int],
                            j,
                        )) by {
                            lemma_bit_ops(old_row, other.data@[y as int], j);
                        }
                        assert(self@ =~= before.union(other_row));
                    }
                }
            } else {
                assert(other_row =~= Set::<Position>::empty());
                assert(self@ =~= before.union(other_row));
            }
            y = y + 1;
            assert(self@ =~= old(self)@.union(
                other@.filter(|p: Position| (p.1 as int) < (y as int)),
            ));
        }
        assert(other@.filter(|p: Position| (p.1 as int) < 64) =~= other@);
    }

    /// The first member in reading order (smallest row, then smallest column).
    pub fn top_left(&self) -> (r: Option<Position>)
        ensures
            match r {
                None => self@ =~= Set::<Position>::empty(),
                Some(p) => self@.contains(p) && forall|q: Position| #[trigger]
                    self@.contains(q) ==> reading_le(p, q),
            },
    {
        let mut y: usize = 0;
        while y < 64
            invariant
                y <= 64,
                forall|q: Position| #[trigger] self@.contains(q) ==> q.1 >= y,
            decreases 64 - y,
        {
            proof {
                lemma_bit_test(self.initialized, y as u64);
            }
            if (self.initialized & (1u64 << y)) != 0 && self.data[y] != 0 {
                let row = self.data[y];
                let x = row.trailing_zeros() as u8;
                proof {
                    lemma_lowest_bit(row);
                    let p = Position(x, y as u8);
                    assert(self@.contains(p));
                    assert forall|q: Position| #[trigger] self@.contains(q) implies reading_le(
                        p,
                        q,
                    ) by {
                        if q.1 == y && q.0 < x {
                            assert(!bit(row, q.0 as u64));
                        }
                    }
                }
                return Some(Position(x, y as u8));
            }
            proof {
                assert forall|q: Position| #[trigger] self@.contains(q) implies q.1 >= y + 1 by {
                    if q.1 == y {
                        lemma_bit_zero(q.0 as u64);
                    }
                }
            }
            y = y + 1;
        }
        None
    }
}

/// A set of grid squares stored as one word per row.
#[derive(Debug, PartialEq, Eq)]
pub struct Bitboard {
    data: [u64; 64],
}

impl Clone for Bitboard {
    fn clone(&self) -> (r: Self)
        ensures
            r == *self,
    {
        Bitboard { data: self.data }
    }
}

impl View for Bitboard {
    type V = Set<Position>;

    closed spec fn view(&self) -> Set<Position> {
        Set::new(|p: Position| on_grid(p) && bit(self.data@[p.1 as int], p.0 as u64))
    }
}

impl Bitboard {
    /// Every member lies on the grid.
    pub proof fn lemma_on_grid(&self)
        ensures
            forall|p: Position| #[trigger] self@.contains(p) ==> on_grid(p),
    {
    }

    pub fn new() -> (r: Self)
        ensures
            r@ =~= Set::<Position>::empty(),
    {
        let r = Self { data: [0u64; 64] };
        proof {
            assert forall|p: Position| !r@.contains(p) by {
                lemma_bit_zero(p.0 as u64);
            }
        }
        r
    }

    pub fn get(&self, pos: Position) -> (r: bool)
        requires
            on_grid(pos),
        ensures
            r == self@.contains(pos),
    {
        proof {
            lemma_bit_test(self.data@[pos.1 as int], pos.0 as u64);
        }
        self.data[pos.1 as usize] & (1u64 << pos.0) != 0
    }

    pub fn set(&mut self, pos: Position)
        requires
            on_grid(pos),
        ensures
            final(self)@ =~= old(self)@.insert(pos),
    {
        let y = pos.1 as usize;
        let ghost old_view = self@;
        let ghost old_row = self.data@[y as int];
        let row = self.data[y] | (1u64 << pos.0);
        self.data[y] = row;
        proof {
            assert forall|j: u64| j < 64 implies bit(row, j) == (j == pos.0 || bit(old_row, j)) by {
                lemma_bit_or_single(old_row, pos.0 as u64, j);
            }
            assert(self@ =~= old_view.insert(pos));
        }
    }

    /// The squares of the grid that are not in `set`.
    pub fn complement_of(set: &LazyBitboard) -> (r: Bitboard)
        ensures
            forall|p: Position| on_grid(p) ==> (#[trigger] r@.contains(p) <==> !set@.contains(p)),
            forall|p: Position| #[trigger] r@.contains(p) ==> on_grid(p),
    {
        let mut r = Bitboard::new();
        let mut y: usize = 0;
        while y < 64
            invariant
                y <= 64,
                forall|p: Position|
                    on_grid(p) && (p.1 as int) < (y as int) ==> (#[trigger] r@.contains(p)
                        <==> !set@.contains(p)),
                forall|p: Position| #[trigger] r@.contains(p) ==> on_grid(p) && (p.1 as int) < (
                    y as int),
            decreases 64 - y,
        {
            let ghost before = r@;
            proof {
                lemma_bit_test(set.initialized, y as u64);
            }
            let row: u64 = if (set.initialized & (1u64 << y)) != 0 {
                !set.data[y]
            } else {
                0xffff_ffff_ffff_ffffu64
            };
            r.data[y] = row;
            proof {
                assert forall|p: Position| on_grid(p) && p.1 == y implies (#[trigger] r@.contains(p)
                    <==> !set@.contains(p)) by {
                    if bit(set.initialized, y as u64) {
                        lemma_bit_ops(set.data@[y as int], 0, p.0 as u64);
                    } else {
                        lemma_bit_all_ones(p.0 as u64);
                    }
                }
                assert forall|p: Position| on_grid(p) && p.1 != y implies (#[trigger] r@.contains(p)
                    == before.contains(p)) by {}
            }
            y = y + 1;
        }
        r
    }
}

} // verus!
