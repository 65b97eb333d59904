use rand::{RngCore, SeedableRng};
use rand_chacha::ChaCha8Rng;
use sisyphus::bits::Position;
use sisyphus::game::Game;
use sisyphus::moves::{Direction, Push};
use sisyphus::zobrist::Zobrist;

#[test]
fn zobrist_keys_are_reproducible() {
    let a = Zobrist::new();
    let b = Zobrist::new();
    assert_eq!(a.box_hash(3, 4), b.box_hash(3, 4));
    assert_ne!(a.box_hash(3, 4), a.box_hash(4, 3));
}

#[test]
fn zobrist_push_updates_hash_by_two_keys() {
    let z = Zobrist::new();
    let mut game = Game::from_text("######\n#@$ .#\n######").unwrap();
    let before = z.compute_boxes_hash(&game);
    assert_eq!(before, z.box_hash(2, 1));
    let idx = game.box_index(sisyphus::bits::Position(2, 1)).unwrap();
    game.push(Push::new(idx, Direction::Right));
    let after = z.compute_boxes_hash(&game);
    assert_eq!(after, before ^ z.box_hash(2, 1) ^ z.box_hash(3, 1));
}

#[test]
fn zobrist_full_hash_ignores_where_the_player_stands_in_its_region() {
    let z = Zobrist::new();
    let a = Game::from_text("#######\n#@ $ .#\n#######").unwrap();
    let b = Game::from_text("#######\n# @$ .#\n#######").unwrap();
    assert_eq!(z.compute_hash(&a), z.compute_hash(&b));
    let c = Game::from_text("#######\n#  $@.#\n#######").unwrap();
    assert_ne!(z.compute_hash(&a), z.compute_hash(&c));
    assert_eq!(z.compute_boxes_hash(&a), z.compute_boxes_hash(&c));
}

#[test]
fn test_keys_follow_seeded_stream() {
    let z = Zobrist::new();
    let mut rng = ChaCha8Rng::seed_from_u64(0x123456789abcdef0);
    for y in 0..64u8 {
        for x in 0..64u8 {
            assert_eq!(z.box_hash(x, y), rng.next_u64());
        }
    }
    for y in 0..64u8 {
        for x in 0..64u8 {
            assert_eq!(z.player_hash(Position(x, y)), rng.next_u64());
        }
    }
}

#[test]
fn test_keys_reproducible() {
    let z1 = Zobrist::new();
    let z2 = Zobrist::new();
    for y in 0..64u8 {
        for x in 0..64u8 {
            assert_eq!(z1.box_hash(x, y), z2.box_hash(x, y));
            assert_eq!(z1.player_hash(Position(x, y)), z2.player_hash(Position(x, y)));
        }
    }
}
