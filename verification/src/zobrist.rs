use rand::{RngCore, SeedableRng};
use rand_chacha::ChaCha8Rng;
use vstd::prelude::*;

use crate::bits::{on_grid, Bitvector, BitvectorIter, Position};
use crate::game::{is_top_left, Game, Tile};
use crate::moves::Push;
use crate::reach::{cell, lemma_cell_grid_pos};

verus! {

/// The number that a ChaCha8 generator seeded with `seed` gives when it is
/// read from the 32-bit word `word` of its stream on.
pub uninterp spec fn chacha_u64_at(seed: u64, word: u64) -> u64;

/// rand_chacha's `ChaCha8Rng`, seeded by rand_core's
/// `SeedableRng::seed_from_u64`, moved by `set_word_pos` to the word `word`
/// of its stream, then read by `RngCore::next_u64`. What the number is is
/// not stated: the contract names it, a function of the seed and the word
/// alone, as the generator is reproducible.
#[verifier::external_body]
fn seeded_u64(seed: u64, word: u64) -> (r: u64)
    ensures
        r == chacha_u64_at(seed, word),
{
    let mut rng = ChaCha8Rng::seed_from_u64(seed);
    rng.set_word_pos(word as u128);
    rng.next_u64()
}

/// The seed of the keys.
pub const ZOBRIST_SEED: u64 = 0x123456789abcdef0u64;

/// Zobrist hash for game states
pub struct Zobrist {
    box_hashes: Vec<u64>,
    player_hashes: Vec<u64>,
    player_unknown_hash: u64,
}

/// The exclusive-or of the keys of the squares in a list.
pub open spec fn xor_keys(keys: Seq<u64>, l: Seq<Position>) -> u64
    decreases l.len(),
{
    if l.len() == 0 {
        0
    } else {
        xor_keys(keys, l.drop_last()) ^ keys[cell(l.last())]
    }
}

/// Moving one box in a list changes the hash of the list by the keys of the
/// box's old and new squares.
pub proof fn lemma_move_box_hash(keys: Seq<u64>, l: Seq<Position>, i: int, q: Position)
    requires
        0 <= i < l.len(),
    ensures
        xor_keys(keys, l.update(i, q)) == xor_keys(keys, l) ^ keys[cell(l[i])] ^ keys[cell(q)],
    decreases l.len(),
{
    let n = l.len();
    let b = keys[cell(l[i])];
    let c = keys[cell(q)];
    if i == n - 1 {
        assert(l.update(i, q).drop_last() =~= l.drop_last());
        let a = xor_keys(keys, l.drop_last());
        assert(a ^ c == ((a ^ b) ^ b) ^ c) by (bit_vector);
    } else {
        lemma_move_box_hash(keys, l.drop_last(), i, q);
        assert(l.update(i, q).drop_last() =~= l.drop_last().update(i, q));
        let a = xor_keys(keys, l.drop_last());
        let d = keys[cell(l.last())];
        assert(((a ^ b) ^ c) ^ d == ((a ^ d) ^ b) ^ c) by (bit_vector);
    }
}

/// A push changes the hash of the boxes by the keys of the pushed box's old
/// and new squares, so that a search can update the hash without
/// recomputing it.
pub proof fn lemma_push_hash(z: &Zobrist, g0: &Game, g1: &Game, push: Push)
    requires
        push.box_index.0 < g0.box_list().len(),
        g0.neighbor(g0.box_list()[push.box_index.0 as int], push.direction) is Some,
        g1.box_list() == g0.box_list().update(
            push.box_index.0 as int,
            g0.neighbor(g0.box_list()[push.box_index.0 as int], push.direction)->0,
        ),
    ensures
        z.boxes_key(g1.box_list()) == z.boxes_key(g0.box_list()) ^ z.box_key(
            g0.box_list()[push.box_index.0 as int],
        ) ^ z.box_key(g0.neighbor(g0.box_list()[push.box_index.0 as int], push.direction)->0),
{
    lemma_move_box_hash(
        z.box_keys(),
        g0.box_list(),
        push.box_index.0 as int,
        g0.neighbor(g0.box_list()[push.box_index.0 as int], push.direction)->0,
    );
}

/// The exclusive-or of the box keys of the boxes in `s` among the first `n`
/// boxes of a list.
pub open spec fn subset_key(z: &Zobrist, boxes: Seq<Position>, s: Set<int>, n: int) -> u64
    decreases n,
{
    if n <= 0 {
        0
    } else {
        subset_key(z, boxes, s, n - 1) ^ if s.contains(n - 1) {
            z.box_key(boxes[n - 1])
        } else {
            0u64
        }
    }
}

/// Adding a box to the set changes its hash by the box's key.
proof fn lemma_subset_key_insert(z: &Zobrist, boxes: Seq<Position>, s: Set<int>, m: int, n: int)
    requires
        !s.contains(m),
        0 <= m,
    ensures
        subset_key(z, boxes, s.insert(m), n) == subset_key(z, boxes, s, n) ^ if m < n {
            z.box_key(boxes[m])
        } else {
            0u64
        },
    decreases n,
{
    if n > 0 {
        lemma_subset_key_insert(z, boxes, s, m, n - 1);
        let a = subset_key(z, boxes, s, n - 1);
        let k = z.box_key(boxes[m]);
        let e = if s.contains(n - 1) {
            z.box_key(boxes[n - 1])
        } else {
            0u64
        };
        assert(s.insert(m).contains(n - 1) == (m == n - 1 || s.contains(n - 1)));
        if m < n - 1 {
            assert((a ^ k) ^ e == (a ^ e) ^ k) by (bit_vector);
        } else if m == n - 1 {
            assert(e == 0u64);
        } else {
            assert((a ^ 0u64) ^ e == (a ^ e) ^ 0u64) by (bit_vector);
        }
    } else {
        assert(0u64 ^ 0u64 == 0u64) by (bit_vector);
    }
}

proof fn lemma_subset_key_empty(z: &Zobrist, boxes: Seq<Position>, n: int)
    ensures
        subset_key(z, boxes, Set::empty(), n) == 0,
    decreases n,
{
    if n > 0 {
        lemma_subset_key_empty(z, boxes, n - 1);
        assert(0u64 ^ 0u64 == 0u64) by (bit_vector);
    }
}

impl Zobrist {
    #[verifier::type_invariant]
    spec fn inv(&self) -> bool {
        self.box_hashes@.len() == 4096 && self.player_hashes@.len() == 4096
    }

    /// The key of a box on each grid square, by cell.
    pub closed spec fn box_keys(&self) -> Seq<u64> {
        self.box_hashes@
    }

    /// The key of the player on each grid square, by cell.
    pub closed spec fn player_keys(&self) -> Seq<u64> {
        self.player_hashes@
    }

    pub open spec fn box_key(&self, p: Position) -> u64 {
        self.box_keys()[cell(p)]
    }

    pub open spec fn player_key(&self, p: Position) -> u64 {
        self.player_keys()[cell(p)]
    }

    /// The hash of a list of box squares.
    pub open spec fn boxes_key(&self, l: Seq<Position>) -> u64 {
        xor_keys(self.box_keys(), l)
    }

    /// The keys are those of the seeded stream: the box keys first, one
    /// number (two words) per cell, then the player keys, then the key of an
    /// unknown player square.
    pub closed spec fn from_seed(&self) -> bool {
        &&& self.box_hashes@.len() == 4096
        &&& self.player_hashes@.len() == 4096
        &&& forall|k: int| 0 <= k < 4096 ==> #[trigger] self.box_hashes@[k] == chacha_u64_at(ZOBRIST_SEED, (2 * k) as u64)
        &&& forall|k: int| 0 <= k < 4096 ==> #[trigger] self.player_hashes@[k] == chacha_u64_at(
            ZOBRIST_SEED,
            (2 * (4096 + k)) as u64,
        )
        &&& self.player_unknown_hash == chacha_u64_at(ZOBRIST_SEED, (2 * 8192) as u64)
    }

    /// Keys drawn from a generator with a fixed seed, so that the hashes are
    /// the same in every run.
    pub fn new() -> (r: Self)
        ensures
            r.box_keys().len() == 4096,
            r.player_keys().len() == 4096,
            r.from_seed(),
            forall|p: Position| #[trigger] on_grid(p) ==> r.box_key(p) == chacha_u64_at(ZOBRIST_SEED, (2 * cell(p)) as u64),
            forall|p: Position| #[trigger] on_grid(p) ==> r.player_key(p) == chacha_u64_at(
                ZOBRIST_SEED,
                (2 * (4096 + cell(p))) as u64,
            ),
    {
        let mut box_hashes: Vec<u64> = Vec::new();
        let mut k: u64 = 0;
        while k < 4096
            invariant
                k <= 4096,
                box_hashes@.len() == k,
                forall|q: int| 0 <= q < k ==> #[trigger] box_hashes@[q] == chacha_u64_at(ZOBRIST_SEED, (2 * q) as u64),
            decreases 4096 - k,
        {
            box_hashes.push(seeded_u64(ZOBRIST_SEED, 2 * k));
            k = k + 1;
        }
        let mut player_hashes: Vec<u64> = Vec::new();
        let mut k: u64 = 0;
        while k < 4096
            invariant
                k <= 4096,
                player_hashes@.len() == k,
                forall|q: int| 0 <= q < k ==> #[trigger] player_hashes@[q] == chacha_u64_at(
                    ZOBRIST_SEED,
                    (2 * (4096 + q)) as u64,
                ),
            decreases 4096 - k,
        {
            player_hashes.push(seeded_u64(ZOBRIST_SEED, 2 * (4096 + k)));
            k = k + 1;
        }
        let player_unknown_hash = seeded_u64(ZOBRIST_SEED, 2 * 8192);
        let r = Zobrist { box_hashes, player_hashes, player_unknown_hash };
        proof {
            assert forall|p: Position| #[trigger] on_grid(p) implies r.box_key(p) == chacha_u64_at(
                ZOBRIST_SEED,
                (2 * cell(p)) as u64,
            ) && r.player_key(p) == chacha_u64_at(ZOBRIST_SEED, (2 * (4096 + cell(p))) as u64) by {
                lemma_cell_grid_pos(p);
            }
        }
        r
    }

    /// Keys from the seed are the same in every instance: two of them give
    /// every square the same box key and the same player key.
    pub proof fn lemma_keys_reproducible(&self, other: &Zobrist)
        requires
            self.from_seed(),
            other.from_seed(),
        ensures
            self.box_keys() == other.box_keys(),
            self.player_keys() == other.player_keys(),
    {
        assert(self.box_keys() =~= other.box_keys());
        assert(self.player_keys() =~= other.player_keys());
    }

    /// Get hash value for a box at a specific position
    pub fn box_hash(&self, x: u8, y: u8) -> (r: u64)
        requires
            x < 64,
            y < 64,
        ensures
            r == self.box_key(Position(x, y)),
    {
        proof {
            use_type_invariant(self);
        }
        self.box_hashes[y as usize * 64 + x as usize]
    }

    /// Get hash value for player position
    pub fn player_hash(&self, pos: Position) -> (r: u64)
        requires
            on_grid(pos),
        ensures
            r == self.player_key(pos),
    {
        proof {
            use_type_invariant(self);
        }
        self.player_hashes[pos.1 as usize * 64 + pos.0 as usize]
    }

    /// Compute hash for all boxes in a game state
    pub fn compute_boxes_hash(&self, game: &Game) -> (r: u64)
        requires
            game.wf(),
        ensures
            r == self.boxes_key(game.box_list()),
    {
        proof {
            game.lemma_wf_core();
            game.lemma_wf();
        }
        let boxes = game.box_positions();
        let mut boxes_hash = 0u64;
        let mut i: usize = 0;
        while i < boxes.len()
            invariant
                i <= boxes@.len(),
                boxes@ == game.box_list(),
                forall|j: int| 0 <= j < boxes@.len() ==> on_grid(#[trigger] boxes@[j]),
                boxes_hash == self.boxes_key(boxes@.take(i as int)),
            decreases boxes@.len() - i,
        {
            let pos = boxes[i];
            boxes_hash = boxes_hash ^ self.box_hash(pos.0, pos.1);
            assert(boxes@.take(i + 1).drop_last() == boxes@.take(i as int));
            i = i + 1;
        }
        assert(boxes@.take(boxes@.len() as int) == boxes@);
        boxes_hash
    }

    /// The hash of the boxes of a game in a subset of box indexes.
    pub fn compute_boxes_hash_subset(&self, game: &Game, subset: Bitvector) -> (r: u64)
        requires
            game.wf(),
            forall|i: int| #[trigger] subset@.contains(i) ==> 0 <= i < game.box_list().len(),
        ensures
            r == subset_key(self, game.box_list(), subset@, 64),
    {
        proof {
            game.lemma_wf_core();
            game.lemma_wf();
        }
        let mut hash = 0u64;
        let mut it = subset.iter();
        let ghost mut done: Set<int> = Set::empty();
        proof {
            lemma_subset_key_empty(self, game.box_list(), 64);
        }
        loop
            invariant
                game.wf(),
                forall|i: int| #[trigger] subset@.contains(i) ==> 0 <= i < game.box_list().len(),
                forall|i: int| 0 <= i < game.box_list().len() ==> on_grid(#[trigger] game.box_list()[i]),
                subset@ == done.union(it@),
                done.disjoint(it@),
                hash == subset_key(self, game.box_list(), done, 64),
            ensures
                subset@ == done,
                hash == subset_key(self, game.box_list(), done, 64),
            decreases it@.len(),
        {
            proof {
                it.lemma_bounded();
            }
            let ghost it0 = it@;
            let next = it.next();
            let box_idx = match next {
                Some(b) => b,
                None => {
                    proof {
                        assert(subset@ =~= done);
                    }
                    break;
                },
            };
            proof {
                assert(it0.contains(box_idx.0 as int));
                assert(subset@.contains(box_idx.0 as int));
                assert(!done.contains(box_idx.0 as int));
            }
            let pos = game.box_position(box_idx);
            proof {
                lemma_subset_key_insert(self, game.box_list(), done, box_idx.0 as int, 64);
                done = done.insert(box_idx.0 as int);
                assert(subset@ =~= done.union(it@));
            }
            hash = hash ^ self.box_hash(pos.0, pos.1);
        }
        hash
    }

    /// Compute the hash for a game state (boxes hash XOR canonical player position hash)
    pub fn compute_hash(&self, game: &Game) -> (r: u64)
        requires
            game.wf(),
            game.spec_tile(game.spec_player()) != Tile::Wall,
        ensures
            exists|c: Position|
                #[trigger] is_top_left(c, game.region(game.spec_player())) && r == self.boxes_key(
                    game.box_list(),
                ) ^ self.player_key(c),
    {
        let boxes_hash = self.compute_boxes_hash(game);
        let canonical_pos = game.canonical_player_pos();
        proof {
            game.lemma_wf_core();
            game.lemma_wf();
            assert(on_grid(canonical_pos)) by {
                game.lemma_region_on_grid(game.spec_player(), canonical_pos);
                game.lemma_wf();
            }
        }
        boxes_hash ^ self.player_hash(canonical_pos)
    }
}

} // verus!
