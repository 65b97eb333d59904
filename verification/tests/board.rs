use sisyphus::board::{Board, Tile};
use sisyphus::text::ParseError;

#[test]
fn board_test_parse_basic_board() {
    let input = "####\n# .#\n#  ###\n#*@  #\n#  $ #\n#  ###\n####";
    let board = Board::from_text(input).unwrap();

    assert_eq!(board.width(), 6);
    assert_eq!(board.height(), 7);
    assert_eq!(board.player_pos(), (2, 3));
}

#[test]
fn board_test_no_player() {
    let input = "####\n#  #\n####";
    assert!(Board::from_text(input).is_err());
}

#[test]
fn board_test_multiple_players() {
    let input = "####\n#@@#\n####";
    assert!(Board::from_text(input).is_err());
}

#[test]
fn board_test_player_on_goal() {
    let input = "####\n#$+ #\n#$. #\n####";
    let board = Board::from_text(input).unwrap();
    assert_eq!(board.player_pos(), (2, 1));
    assert_eq!(board.get_tile(2, 1), Tile::Goal);
}

#[test]
fn board_test_display() {
    let input = "####\n# .#\n#  ###\n#*@  #\n#  $ #\n#  ###\n####";
    let board = Board::from_text(input).unwrap();
    let output = board.to_text();
    assert_eq!(output.trim(), input);
}

#[test]
fn board_test_is_solved() {
    let solved = "####\n#*@#\n####";
    let board = Board::from_text(solved).unwrap();
    assert!(board.is_solved());

    let unsolved = "####\n#$.#\n# @#\n####";
    let board = Board::from_text(unsolved).unwrap();
    assert!(!board.is_solved());
}

#[test]
fn board_test_empty_goals_tarcking() {
    // Board with 1 box on goal, 1 box not on goal
    let input = "####\n# .#\n#  ###\n#*@  #\n#  $ #\n#  ###\n####";
    let board = Board::from_text(input).unwrap();
    assert_eq!(board.empty_goals(), 1);
    assert!(!board.is_solved());

    // Board with all boxes on goals
    let all_solved = "####\n#*@#\n####";
    let board = Board::from_text(all_solved).unwrap();
    assert_eq!(board.empty_goals(), 0);
    assert!(board.is_solved());

    // Board with no boxes on goals
    let none_solved = "####\n#$.#\n# @#\n####";
    let board = Board::from_text(none_solved).unwrap();
    assert_eq!(board.empty_goals(), 1);
    assert!(!board.is_solved());
}

#[test]
fn board_test_goal_box_count_validation() {
    // More goals than boxes - should fail
    let more_goals = "####\n#..#\n# $@#\n####";
    assert!(Board::from_text(more_goals).is_err());

    // More boxes than goals - should fail
    let more_boxes = "####\n#$$#\n# .@#\n####";
    assert!(Board::from_text(more_boxes).is_err());

    // Equal goals and boxes - should succeed
    let balanced = "####\n#$.#\n# * #\n# @#\n####";
    assert!(Board::from_text(balanced).is_ok());
}

#[test]
fn test_position_mapping() {
    // Simple board with player at (1, 1), balanced boxes and goals
    let input = "####\n#@*#\n#$.#\n####";
    let board = Board::from_text(input).unwrap();

    // Player position should have index 0
    assert_eq!(board.index_at(1, 1), 0);

    // Walls should have index 255
    assert_eq!(board.index_at(0, 0), 255);
    assert_eq!(board.index_at(3, 0), 255);

    // Adjacent floor positions should be reachable
    let idx_2_1 = board.index_at(2, 1);
    assert!(idx_2_1 < 255);

    let idx_1_2 = board.index_at(1, 2);
    assert!(idx_1_2 < 255);

    // All reachable positions should have unique indices
    assert_ne!(board.index_at(1, 1), board.index_at(2, 1));
}

#[test]
fn test_position_mapping_unreachable() {
    // Board with unreachable area - no boxes/goals to keep validation happy
    let input = "#####\n#@  #\n#####\n#   #\n#####";
    let board = Board::from_text(input).unwrap();

    // Player position and adjacent should be reachable
    assert!(board.index_at(1, 1) < 255);
    assert!(board.index_at(2, 1) < 255);
    assert!(board.index_at(3, 1) < 255);

    // Area below wall should be unreachable
    assert_eq!(board.index_at(1, 3), 255);
    assert_eq!(board.index_at(2, 3), 255);
}

#[test]
fn test_box_bitset() {
    // Board with boxes at known positions
    let input = "####\n#@*#\n#$.#\n####";
    let board = Board::from_text(input).unwrap();

    // Get indices for box positions
    let box1_idx = board.index_at(2, 1); // Box on goal at (2,1)
    let box2_idx = board.index_at(1, 2); // Box at (1,2)

    // Check that boxes are present in bitset
    assert!(board.has_box_at_index(box1_idx));
    assert!(board.has_box_at_index(box2_idx));

    // Check that non-box positions don't have boxes
    let player_idx = board.index_at(1, 1);
    assert!(!board.has_box_at_index(player_idx));

    // Verify box count matches number of set bits
    let set_bits: u32 = board.box_bitset().iter().map(|&word| word.count_ones()).sum();
    assert!(set_bits == 2);
}

#[test]
fn board_errors_name_the_problem() {
    assert_eq!(Board::from_text(""), Err(ParseError::EmptyBoard));
    assert_eq!(Board::from_text("####\n#  #\n####"), Err(ParseError::NoPlayer));
    assert_eq!(Board::from_text("####\n#@@#\n####"), Err(ParseError::MultiplePlayers));
    assert_eq!(
        Board::from_text("####\n#@x#\n####"),
        Err(ParseError::InvalidCharacter('x', 2, 1))
    );
    assert_eq!(
        Board::from_text("####\n#..#\n# $@#\n####"),
        Err(ParseError::CountMismatch(2, 1))
    );
    let wide = "#".repeat(65);
    assert_eq!(Board::from_text(&wide), Err(ParseError::WidthTooLarge(65)));
    let tall = "#\n".repeat(65);
    assert_eq!(Board::from_text(&tall), Err(ParseError::HeightTooLarge(65)));
}

#[test]
fn board_numbers_every_reachable_square_once() {
    let input = "######\n#@   #\n# $. #\n######";
    let board = Board::from_text(input).unwrap();
    let mut seen = Vec::new();
    for y in 0..4u8 {
        for x in 0..6u8 {
            let i = board.index_at(x, y);
            let wall = board.get_tile(x, y) == Tile::Wall;
            assert_eq!(i == 255, wall);
            if i != 255 {
                assert!(!seen.contains(&i));
                seen.push(i);
            }
        }
    }
    // 8 reachable squares, numbered 0 to 7.
    assert_eq!(seen.len(), 8);
    assert!(seen.iter().all(|&i| i < 8));
    assert_eq!(board.get_tile(2, 2), Tile::Box);
    assert!(board.has_box_at_index(board.index_at(2, 2)));
    assert!(!board.has_box_at_index(255));
}
