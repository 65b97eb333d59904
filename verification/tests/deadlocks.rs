use std::rc::Rc;

use sisyphus::bits::{Bitvector, Index};
use sisyphus::deadlocks::{
    compute_frozen_boxes, compute_new_frozen_boxes, freeze_check, ForwardFrozenBoxes, Freeze,
};
use sisyphus::game::Game;
use sisyphus::zobrist::Zobrist;

fn parse_game(text: &str) -> Game {
    Game::from_text(text.trim_matches('\n')).unwrap()
}

#[test]
fn test_freeze_corner_box_off_goal() {
    let game = parse_game(
        r#"
####
#$ #
#  #
#@.#
####
"#,
    );
    let frozen = Bitvector::new();
    match freeze_check(&game, &frozen, Index(0)) {
        Freeze::Deadlocked(b) => {
            assert!(b.contains(Index(0)));
            assert_eq!(b.len(), 1);
        },
        _ => panic!("a box in a corner off its goal is a deadlock"),
    }
    let added = compute_new_frozen_boxes(&frozen, &game, Index(0));
    assert!(added.contains(Index(0)));
    assert!(compute_frozen_boxes(&game).contains(Index(0)));
    assert!(ForwardFrozenBoxes::new(&game, Rc::new(Zobrist::new())).is_none());
}

#[test]
fn test_freeze_corner_box_on_goal() {
    let game = parse_game(
        r#"
####
#* #
#  #
#@ #
####
"#,
    );
    let frozen = Bitvector::new();
    match freeze_check(&game, &frozen, Index(0)) {
        Freeze::Frozen(b) => {
            assert!(b.contains(Index(0)));
            assert_eq!(b.len(), 1);
        },
        _ => panic!("a box in a corner on its goal is frozen"),
    }
    assert!(ForwardFrozenBoxes::new(&game, Rc::new(Zobrist::new())).is_some());
    assert!(compute_frozen_boxes(&game).contains(Index(0)));
}

#[test]
fn test_freeze_free_box() {
    let game = parse_game(
        r#"
#####
#   #
# $ #
#@ .#
#####
"#,
    );
    let frozen = Bitvector::new();
    assert!(matches!(freeze_check(&game, &frozen, Index(0)), Freeze::NotFrozen));
    assert_eq!(compute_new_frozen_boxes(&frozen, &game, Index(0)).len(), 0);
    assert_eq!(compute_frozen_boxes(&game).len(), 0);
}

#[test]
fn test_freeze_pair_against_wall() {
    let game = parse_game(
        r#"
######
#$$  #
#   .#
#@  .#
######
"#,
    );
    let frozen = Bitvector::new();
    match freeze_check(&game, &frozen, Index(1)) {
        Freeze::Deadlocked(b) => {
            assert!(b.contains(Index(0)));
            assert!(b.contains(Index(1)));
            assert_eq!(b.len(), 2);
        },
        _ => panic!("two boxes side by side against a wall are frozen"),
    }
    let all = compute_frozen_boxes(&game);
    assert_eq!(all.len(), 2);
}
