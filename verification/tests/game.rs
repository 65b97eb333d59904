use std::collections::HashSet;

use sisyphus::bits::{Index, Position};
use sisyphus::game::{Game, Tile};
use sisyphus::moves::{Direction, Move, Moves, MovesIter, Pull, Push};
use sisyphus::text::ParseError;

fn parse_game(text: &str) -> Result<Game, ParseError> {
    Game::from_text(text.trim_matches('\n'))
}

fn moves_of<T: Move>(mut it: MovesIter<T>) -> Vec<T> {
    let mut out = Vec::new();
    while let Some(m) = it.next() {
        out.push(m);
    }
    out
}

fn has_box_at(game: &Game, pos: Position) -> bool {
    game.box_index(pos).is_some()
}

fn box_at(game: &Game, x: u8, y: u8) -> Index {
    game.box_index(Position(x, y)).unwrap()
}

#[test]
fn game_test_parse_basic_board() {
    let game = parse_game(
        r#"
####
# .#
#  ###
#*@  #
#  $ #
#  ###
####
"#,
    )
    .unwrap();

    assert_eq!(game.width(), 6);
    assert_eq!(game.height(), 7);
    assert_eq!(game.player(), Position(2, 3));
}

#[test]
fn game_test_no_player() {
    let result = parse_game(
        r#"
####
#  #
####
"#,
    );
    assert!(result.is_err());
}

#[test]
fn game_test_multiple_players() {
    let result = parse_game(
        r#"
####
#@@#
####
"#,
    );
    assert!(result.is_err());
}

#[test]
fn game_test_player_on_goal() {
    let game = parse_game(
        r#"
#####
#$+ #
#$. #
#####
"#,
    )
    .unwrap();
    assert_eq!(game.player(), Position(2, 1));
    assert_eq!(game.get_tile(Position(2, 1)), Tile::Goal);
}

#[test]
fn game_test_display() {
    let input = r#"
####
# .#
#  ###
#*@  #
#  $ #
#  ###
####
"#;
    let game = parse_game(input).unwrap();
    let output = game.to_text();
    assert_eq!(output.trim(), input.trim_matches('\n'));
}

#[test]
fn game_test_is_solved() {
    let solved = parse_game(
        r#"
####
#*@#
####
"#,
    )
    .unwrap();
    assert!(solved.is_solved());

    let unsolved = parse_game(
        r#"
####
#$.#
# @#
####
"#,
    )
    .unwrap();
    assert!(!unsolved.is_solved());
}

#[test]
fn game_test_empty_goals_tarcking() {
    // Board with 1 box on goal, 1 box not on goal
    let game = parse_game(
        r#"
####
# .#
#  ###
#*@  #
#  $ #
#  ###
####
"#,
    )
    .unwrap();
    assert_eq!(game.unsolved_boxes().len(), 1);
    assert!(!game.is_solved());

    // Board with all boxes on goals
    let all_solved = parse_game(
        r#"
####
#*@#
####
"#,
    )
    .unwrap();
    assert_eq!(all_solved.unsolved_boxes().len(), 0);
    assert!(all_solved.is_solved());

    // Board with no boxes on goals
    let none_solved = parse_game(
        r#"
####
#$.#
# @#
####
"#,
    )
    .unwrap();
    assert_eq!(none_solved.unsolved_boxes().len(), 1);
    assert!(!none_solved.is_solved());
}

#[test]
fn game_test_goal_box_count_validation() {
    // More goals than boxes - should fail
    let more_goals = parse_game(
        r#"
####
#..##
# $@#
#####
"#,
    );
    assert!(more_goals.is_err());

    // More boxes than goals - should fail
    let more_boxes = parse_game(
        r#"
####
#$$##
# .@#
#####
"#,
    );
    assert!(more_boxes.is_err());

    // Equal goals and boxes - should succeed
    let balanced = parse_game(
        r#"
####
#$.##
# * #
# @##
####
"#,
    );
    assert!(balanced.is_ok());
}

#[test]
fn test_push_basic() {
    // Simple board: player can push box right onto goal
    let mut game = parse_game(
        r#"
#####
#@$.#
#####
"#,
    )
    .unwrap();

    // Push box right (box at position (2,1) is box index 0)
    let box_idx = box_at(&game, 2, 1);
    game.push(Push {
        box_index: box_idx,
        direction: Direction::Right,
    });

    // Box should now be on goal at (3, 1)
    assert_eq!(game.get_tile(Position(3, 1)), Tile::Goal);
    assert!(has_box_at(&game, Position(3, 1)));
    // Original box position should be floor
    assert_eq!(game.get_tile(Position(2, 1)), Tile::Floor);
    assert!(!has_box_at(&game, Position(2, 1)));
    // Player should be at old box position
    assert_eq!(game.player(), Position(2, 1));
    // Should be solved
    assert!(game.is_solved());
    assert_eq!(game.unsolved_boxes().len(), 0);
}

#[test]
fn test_push_all_directions() {
    // Test pushing right
    let mut game = parse_game(
        r#"
#####
#@$ #
# . #
#####
"#,
    )
    .unwrap();
    let box_idx = box_at(&game, 2, 1);
    game.push(Push {
        box_index: box_idx,
        direction: Direction::Right,
    });
    assert_eq!(game.player(), Position(2, 1));
    assert!(has_box_at(&game, Position(3, 1)));

    // Test pushing down
    let mut game = parse_game(
        r#"
#####
# @ #
# $ #
# . #
#####
"#,
    )
    .unwrap();
    let box_idx = box_at(&game, 2, 2);
    game.push(Push {
        box_index: box_idx,
        direction: Direction::Down,
    });
    assert_eq!(game.player(), Position(2, 2));
    assert_eq!(game.get_tile(Position(2, 3)), Tile::Goal);
    assert!(has_box_at(&game, Position(2, 3)));

    // Test pushing left
    let mut game = parse_game(
        r#"
#####
# $@#
# . #
#####
"#,
    )
    .unwrap();
    let box_idx = box_at(&game, 2, 1);
    game.push(Push {
        box_index: box_idx,
        direction: Direction::Left,
    });
    assert_eq!(game.player(), Position(2, 1));
    assert!(has_box_at(&game, Position(1, 1)));

    // Test pushing up
    let mut game = parse_game(
        r#"
#####
# . #
# $ #
# @ #
#####
"#,
    )
    .unwrap();
    let box_idx = box_at(&game, 2, 2);
    game.push(Push {
        box_index: box_idx,
        direction: Direction::Up,
    });
    assert_eq!(game.player(), Position(2, 2));
    assert_eq!(game.get_tile(Position(2, 1)), Tile::Goal);
    assert!(has_box_at(&game, Position(2, 1)));
}

#[test]
fn test_push_floor_to_goal() {
    // Push box from floor onto goal
    let mut game = parse_game(
        r#"
#####
#@$.#
#####
"#,
    )
    .unwrap();

    assert_eq!(game.unsolved_boxes().len(), 1);
    let box_idx = box_at(&game, 2, 1);
    game.push(Push {
        box_index: box_idx,
        direction: Direction::Right,
    });

    assert_eq!(game.get_tile(Position(3, 1)), Tile::Goal);
    assert!(has_box_at(&game, Position(3, 1)));
    assert_eq!(game.unsolved_boxes().len(), 0);
}

#[test]
fn test_push_goal_to_floor() {
    // Push box from goal onto floor
    let mut game = parse_game(
        r#"
######
#@*  #
######
"#,
    )
    .unwrap();

    assert_eq!(game.unsolved_boxes().len(), 0);
    assert_eq!(game.get_tile(Position(2, 1)), Tile::Goal);
    assert!(has_box_at(&game, Position(2, 1)));

    let box_idx = box_at(&game, 2, 1);
    game.push(Push {
        box_index: box_idx,
        direction: Direction::Right,
    });

    assert_eq!(game.get_tile(Position(2, 1)), Tile::Goal);
    assert!(!has_box_at(&game, Position(2, 1)));
    assert_eq!(game.get_tile(Position(3, 1)), Tile::Floor);
    assert!(has_box_at(&game, Position(3, 1)));
    assert_eq!(game.unsolved_boxes().len(), 1);
    assert_eq!(game.player(), Position(2, 1));
}

#[test]
fn test_push_goal_to_goal() {
    // Push box from one goal to another goal
    let mut game = parse_game(
        r#"
######
#@*.$#
######
"#,
    )
    .unwrap();

    assert_eq!(game.unsolved_boxes().len(), 1);
    let box_idx = box_at(&game, 2, 1);
    game.push(Push {
        box_index: box_idx,
        direction: Direction::Right,
    });

    assert_eq!(game.get_tile(Position(2, 1)), Tile::Goal);
    assert!(!has_box_at(&game, Position(2, 1)));
    assert_eq!(game.get_tile(Position(3, 1)), Tile::Goal);
    assert!(has_box_at(&game, Position(3, 1)));
    assert_eq!(game.unsolved_boxes().len(), 1);
}

#[test]
#[should_panic(expected = "index out of bounds")]
fn test_push_no_box() {
    let mut game = parse_game(
        r#"
#####
#@  #
#####
"#,
    )
    .unwrap();

    // Try to push with invalid box index
    game.push(Push {
        box_index: Index(10),
        direction: Direction::Right,
    });
}

#[test]
fn test_compute_pushes() {
    let game = parse_game(
        r#"
####
# .#
#  ###
#*@  #
#  $ #
#  ###
####
"#,
    )
    .unwrap();
    let reachable = game.compute_pushes();
    let actual = moves_of(reachable.moves.iter()).into_iter().collect::<HashSet<_>>();
    let expected = HashSet::from([
        Push {
            box_index: Index(0),
            direction: Direction::Up,
        },
        Push {
            box_index: Index(0),
            direction: Direction::Down,
        },
        Push {
            box_index: Index(1),
            direction: Direction::Left,
        },
        Push {
            box_index: Index(1),
            direction: Direction::Right,
        },
    ]);
    assert_eq!(expected, actual);

    // Check canonical position - should be lexicographically smallest reachable position
    // Player starts at (2, 3) and can reach many positions including (1, 1)
    assert_eq!(reachable.squares.top_left(), Some(Position(1, 1)));
}

#[test]
fn test_compute_pulls() {
    // Test with a box that could have been pushed from the left
    let game = parse_game(
        r#"
######
# $+ #
######
"#,
    )
    .unwrap();
    let reachable = game.compute_pulls();
    let actual = moves_of(reachable.moves.iter());
    assert_eq!(
        actual,
        vec![Pull {
            box_index: Index(0),
            direction: Direction::Right
        }]
    );
    assert_eq!(reachable.squares.top_left(), Some(Position(3, 1)));
}

#[test]
fn test_pull() {
    // Test pull restores original state
    let mut game = parse_game(
        r#"
#####
#@$.#
#####
"#,
    )
    .unwrap();

    // Save original state
    let original_player = game.player();
    let original_boxes = game.box_positions().to_vec();
    let original_goals = game.unsolved_boxes().len();

    // Push box right
    let box_idx = box_at(&game, 2, 1);
    let push = Push {
        box_index: box_idx,
        direction: Direction::Right,
    };
    game.push(push);

    // Verify state changed
    assert_eq!(game.player(), Position(2, 1));
    assert!(has_box_at(&game, Position(3, 1)));
    assert_eq!(game.unsolved_boxes().len(), 0);
    assert!(game.is_solved());

    // Pull
    game.pull(push.to_pull());

    // Should be back to original state
    assert_eq!(game.player(), original_player);
    assert_eq!(game.box_positions().to_vec(), original_boxes);
    assert_eq!(game.unsolved_boxes().len(), original_goals);
    assert!(!game.is_solved());
}

fn check_push_pull(text: &str, direction: Direction) {
    let mut game = parse_game(text).unwrap();
    let original = game.clone();
    let first = game.box_positions()[0];
    let box_idx = game.box_index(first).unwrap();
    let push = Push {
        box_index: box_idx,
        direction,
    };
    game.push(push);
    game.pull(push.to_pull());
    assert_eq!(game.player(), original.player());
    assert_eq!(game.box_positions(), original.box_positions());
    assert_eq!(game.unsolved_boxes(), original.unsolved_boxes());
    for y in 0..64u8 {
        for x in 0..64u8 {
            let pos = Position(x, y);
            assert_eq!(game.box_index(pos), original.box_index(pos));
        }
    }
}

#[test]
fn test_pull_all_directions() {
    // Test pull in all directions
    check_push_pull(
        r#"
#####
#@$ #
# . #
#####
"#,
        Direction::Right,
    );
    check_push_pull(
        r#"
#####
# @ #
# $ #
# . #
#####
"#,
        Direction::Down,
    );
    check_push_pull(
        r#"
#####
# $@#
# . #
#####
"#,
        Direction::Left,
    );
    check_push_pull(
        r#"
#####
# . #
# $ #
# @ #
#####
"#,
        Direction::Up,
    );
}

#[test]
fn swapped_game_exchanges_boxes_and_goals() {
    let game = parse_game(
        r#"
#####
#@$.#
#####
"#,
    )
    .unwrap();
    let reverse = game.swap_boxes_and_goals();
    assert_eq!(reverse.box_positions(), &[Position(3, 1)]);
    assert_eq!(reverse.goal_positions(), &[Position(2, 1)]);
    assert_eq!(reverse.get_tile(Position(2, 1)), Tile::Goal);
    assert_eq!(reverse.get_tile(Position(3, 1)), Tile::Floor);
    let starts = reverse.all_possible_player_positions();
    assert_eq!(starts, vec![Position(1, 1)]);
}

#[test]
fn dead_squares_and_canonical_position() {
    let game = parse_game(
        r#"
######
#    #
# $. #
#  @ #
######
"#,
    )
    .unwrap();
    // A corner square can never hold a box that reaches a goal.
    assert!(game.is_push_dead_square(Position(1, 1)));
    assert!(!game.is_push_dead_square(Position(3, 2)));
    assert_eq!(game.canonical_player_pos(), Position(1, 1));
    let cp = game.checkpoint();
    let mut other = game.clone();
    other.set_player(Position(4, 3));
    other.restore(&cp);
    assert_eq!(other.player(), game.player());
}

#[test]
fn moves_set_operations() {
    let mut moves: Moves<Push> = Moves::new();
    assert!(moves.is_empty());
    moves.add(Index(2), Direction::Left);
    moves.add(Index(0), Direction::Up);
    assert_eq!(moves.len(), 2);
    assert!(moves.contains(Push::new(Index(2), Direction::Left)));
    let pulls = moves.to_pulls();
    assert!(pulls.contains(Pull::new(Index(2), Direction::Right)));
    let back = pulls.to_pushes();
    assert_eq!(back, moves);
    moves.remove(Push::new(Index(2), Direction::Left));
    assert_eq!(moves.len(), 1);
    assert!(moves.boxes().contains(Index(0)));
    assert_eq!(Direction::Up.reverse(), Direction::Down);
    assert_eq!(Direction::from_index(Direction::Left.index()), Direction::Left);
    assert_eq!(Direction::Right.name(), "Right");
}

#[test]
fn swapping_twice_gives_back_the_game() {
    let text = "######\n#@$ .#\n# *  #\n######";
    let game = parse_game(text).unwrap();
    let back = game.swap_boxes_and_goals().swap_boxes_and_goals();
    assert_eq!(back.to_text(), game.to_text());
    assert_eq!(back.box_positions(), game.box_positions());
    assert_eq!(back.goal_positions(), game.goal_positions());
}
