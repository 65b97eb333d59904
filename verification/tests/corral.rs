use std::rc::Rc;

use sisyphus::bits::{Index, Position};
use sisyphus::corral::{compute_corral, Corral, CorralResult, CorralSearcher, DeadlockResult, DeadlockSearcher};
use sisyphus::game::Game;
use sisyphus::moves::{Direction, Moves};
use sisyphus::zobrist::Zobrist;

fn parse_game(text: &str) -> Game {
    Game::from_text(text.trim_matches('\n')).unwrap()
}

fn compute_corral_helper(game: &Game, x: u8, y: u8) -> Corral {
    compute_corral(game, Position(x, y), &game.compute_pushes()).unwrap()
}

fn check_corral_deadlock(game: &mut Game, direction: Direction, expected_result: DeadlockResult) {
    let reachable = game.compute_pushes();
    let box_pos = game.move_position(game.player(), direction).unwrap();
    let corral_pos = game.move_position(box_pos, direction).unwrap();
    let corral = compute_corral(game, corral_pos, &reachable).unwrap();
    let zobrist = Rc::new(Zobrist::new());
    let mut searcher = DeadlockSearcher::new(zobrist, 100);
    let result = searcher.search(game, &corral);
    assert_eq!(result, expected_result);
}

#[test]
fn test_pi_corral_1() {
    let game = parse_game(
        r#"
########
#  $  .#
#   $@.#
#  $  .#
####   #
   # $.#
   #####
"#,
    );

    let corral = compute_corral_helper(&game, 3, 2);
    assert!(!corral.i_condition);
    assert!(corral.p_condition);
}

#[test]
fn test_pi_corral_2() {
    let game = parse_game(
        r#"
########
#  $  .#
#   $@.#
#  $# .#
####   #
   # $.#
   #####
"#,
    );

    let mut pushes = Moves::new();
    pushes.add(Index(0), Direction::Left);
    pushes.add(Index(1), Direction::Left);

    let corral = compute_corral_helper(&game, 3, 2);
    assert!(corral.i_condition);
    assert!(corral.p_condition);
    assert_eq!(corral.pushes, pushes);
}

#[test]
fn test_pi_corral_3() {
    let game = parse_game(
        r#"
########
#.$.$ .#
#.  $@$#
#. $   #
####   #
   #   #
   #####
"#,
    );

    let mut pushes = Moves::new();
    pushes.add(Index(1), Direction::Left);
    pushes.add(Index(2), Direction::Left);
    pushes.add(Index(4), Direction::Left);

    let corral = compute_corral_helper(&game, 3, 2);
    assert!(corral.i_condition);
    assert!(corral.p_condition);
    assert_eq!(corral.pushes, pushes);
}

#[test]
fn test_pi_corral_4() {
    let game = parse_game(
        r#"
########
#.  $ .#
#. $@ $#
#. $$  #
####   #
   #  .#
   #####
"#,
    );

    let corral = compute_corral_helper(&game, 2, 2);
    assert!(!corral.i_condition);
    assert!(corral.p_condition);
}

#[test]
fn test_pi_corral_5() {
    let game = parse_game(
        r#"
########
#.  $ .#
#. $@ $#
#. $#  #
####   #
   #   #
   #####
"#,
    );

    let mut expected_moves = Moves::new();
    expected_moves.add(Index(0), Direction::Left);
    expected_moves.add(Index(1), Direction::Left);

    let corral = compute_corral_helper(&game, 2, 2);
    assert!(corral.i_condition);
    assert!(corral.p_condition);
    assert_eq!(corral.pushes, expected_moves);
}

#[test]
fn test_pi_corral_6() {
    let game = parse_game(
        r#"
##########
#   #    #
#.  $ @$.#
####$$####
  #    #
  # .. #
  ######
"#,
    );

    let mut pushes = Moves::new();
    pushes.add(Index(0), Direction::Left);

    let corral1 = compute_corral_helper(&game, 3, 2);
    assert!(corral1.i_condition);
    assert!(corral1.p_condition);
    assert_eq!(corral1.pushes, pushes);

    let corral2 = compute_corral_helper(&game, 5, 4);
    assert!(!corral2.i_condition);
    assert!(corral2.p_condition);
}

#[test]
fn test_pi_corral_7() {
    let game = parse_game(
        r#"
        ########
        #      #
        # $#$ ##
        # $  @#
        ##$ $$#
######### $ # ###
#....  ## $  $  #
##...    $   $  #
#....  ##########
########
"#,
    );

    let mut corral2_pushes = Moves::new();
    corral2_pushes.add(Index(8), Direction::Right);
    corral2_pushes.add(Index(10), Direction::Right);

    let mut corral3_pushes = Moves::new();
    corral3_pushes.add(Index(9), Direction::Left);

    let corral1 = compute_corral_helper(&game, 13, 5);
    assert!(!corral1.i_condition);
    assert!(!corral1.p_condition);

    let corral2 = compute_corral_helper(&game, 14, 7);
    assert!(corral2.i_condition);
    assert!(corral2.p_condition);
    assert_eq!(corral2.pushes, corral2_pushes);

    let corral3 = compute_corral_helper(&game, 8, 7);
    assert!(corral3.i_condition);
    assert!(corral3.p_condition);
    assert_eq!(corral3.pushes, corral3_pushes);
}

#[test]
fn test_pi_corral_8() {
    let mut game = parse_game(
        r#"
######
#.   #
#.$@ #
#.  $#
#  $ #
######
"#,
    );

    let reachable = game.compute_pushes();
    let mut searcher = CorralSearcher::new(Rc::new(Zobrist::new()), 10000);
    let result = searcher.search(&mut game, &reachable);
    assert_eq!(result, CorralResult::Deadlocked);
}

#[test]
fn test_deadlock_1() {
    let mut game = parse_game(
        r#"
#######
#. $  #
#+$   #
#######
"#,
    );

    check_corral_deadlock(&mut game, Direction::Right, DeadlockResult::NoDeadlock);
}

#[test]
fn test_deadlock_2() {
    let mut game = parse_game(
        r#"
#######
#. $  #
#.@$  #
#######
"#,
    );

    check_corral_deadlock(&mut game, Direction::Right, DeadlockResult::Deadlocked);
}

#[test]
fn test_deadlock_3() {
    let mut game = parse_game(
        r#"
########
#.   ###
#    ###
#$ @ ###
# #$$  #
#   ## #
# ..   #
########
"#,
    );

    check_corral_deadlock(&mut game, Direction::Down, DeadlockResult::NoDeadlock);
}

#[test]
fn test_deadlock_4() {
    let mut game = parse_game(
        r#"
########
#.   ###
#    ###
#$   ###
# #@$  #
#   ## #
# .*   #
########
"#,
    );

    check_corral_deadlock(&mut game, Direction::Right, DeadlockResult::Deadlocked);
}

#[test]
fn test_deadlock_5() {
    let mut game = parse_game(
        r#"
 #########
##   #   ##
#    #    #
#    #    #
#  $*.+   #
####. *####
#   .**   #
#  $$# $  #
#    #    #
##   #   ##
 #########
"#,
    );

    check_corral_deadlock(&mut game, Direction::Down, DeadlockResult::Deadlocked);
}

#[test]
fn test_deadlock_6() {
    let mut game = parse_game(
        r#"
               #####
               #   #
#######  ####### # #
#     #  #  #      #
#     ####$ #   $ ####
#  #    ....## ####  #
#    #####$## $      #
######   #@          #
         #  ##########
         ####
"#,
    );

    check_corral_deadlock(&mut game, Direction::Up, DeadlockResult::Deadlocked);
}

#[test]
fn corral_search_leaves_the_game_as_it_was() {
    let mut game = parse_game(
        r#"
######
#.   #
#.$@ #
#.  $#
#  $ #
######
"#,
    );
    let before = game.to_text();
    let player = game.player();
    let reachable = game.compute_pushes();
    let mut searcher = CorralSearcher::new(Rc::new(Zobrist::new()), 10000);
    let _ = searcher.search(&mut game, &reachable);
    assert_eq!(game.to_text(), before);
    assert_eq!(game.player(), player);
}

#[test]
fn corral_needing_no_push_is_none() {
    let game = parse_game(
        r#"
#######
#@*   #
#######
"#,
    );
    assert!(compute_corral(&game, Position(3, 1), &game.compute_pushes()).is_none());
}

#[test]
fn deadlock_search_with_no_nodes_finds_nothing() {
    let mut game = parse_game(
        r#"
#######
#. $  #
#.@$  #
#######
"#,
    );
    let reachable = game.compute_pushes();
    let corral = compute_corral(&game, Position(4, 2), &reachable).unwrap();
    let mut searcher = DeadlockSearcher::new(Rc::new(Zobrist::new()), 0);
    assert_eq!(searcher.search(&mut game, &corral), DeadlockResult::NoDeadlock);
}

#[test]
fn deadlock_search_node_limits() {
    let mut game = parse_game(
        r#"
#######
#. $  #
#.@$  #
#######
"#,
    );
    let corral = compute_corral_helper(&game, 4, 2);
    let mut none = DeadlockSearcher::new(Rc::new(Zobrist::new()), 0);
    assert_eq!(none.search(&mut game, &corral), DeadlockResult::NoDeadlock);
    let mut one = DeadlockSearcher::new(Rc::new(Zobrist::new()), 1);
    assert_eq!(one.search(&mut game, &corral), DeadlockResult::CutOff);
    let mut full = DeadlockSearcher::new(Rc::new(Zobrist::new()), 100);
    assert_eq!(full.search(&mut game, &corral), DeadlockResult::Deadlocked);
    assert_eq!(full.search(&mut game, &corral), DeadlockResult::Deadlocked);
}
