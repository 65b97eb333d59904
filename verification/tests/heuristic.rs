use arrayvec::ArrayVec;
use rand::{Rng, SeedableRng};
use rand_chacha::ChaCha8Rng;

use sisyphus::bits::Index;
use sisyphus::sort::counting_sort;
use sisyphus::game::Game;
use sisyphus::heuristic::{
    Cost, GreedyHeuristic, Heuristic, HungarianHeuristic, NullHeuristic, SimpleHeuristic,
};

#[test]
fn test_simple_heuristic_solved() {
    let input = "####\n\
                 #@*#\n\
                 ####";
    let game = Game::from_text(input).unwrap();
    let heuristic = SimpleHeuristic::new_push(&game);

    assert_eq!(heuristic.compute(&game), Cost(0));
}

#[test]
fn test_simple_heuristic_one_move() {
    let input = "####\n\
                 #@$.#\n\
                 ####";
    let game = Game::from_text(input).unwrap();
    let heuristic = SimpleHeuristic::new_push(&game);

    // Box at (2,1), goal at (3,1), push distance = 1
    assert_eq!(heuristic.compute(&game), Cost(1));
}

#[test]
fn test_simple_heuristic_multiple_boxes() {
    let input = "######\n\
                 #    #\n\
                 # $$ #\n\
                 # .. #\n\
                 #  @ #\n\
                 ######";
    let game = Game::from_text(input).unwrap();
    let heuristic = SimpleHeuristic::new_push(&game);

    // Two boxes at (2,2) and (3,2), two goals at (2,3) and (3,3)
    assert_eq!(heuristic.compute(&game), Cost(2));
}

#[test]
fn test_counting_sort_random() {
    let mut rng = ChaCha8Rng::seed_from_u64(12345);

    for _ in 0..100 {
        let len = rng.gen_range(0..4096);
        let max_key: u16 = rng.gen_range(1..1024);
        let mut data: ArrayVec<(u16, Index, Index), 4096> =
            (0..len).map(|i| (rng.gen_range(0..max_key), Index((i % 64) as u8), Index(0))).collect();
        let mut expected = data.to_vec();
        expected.sort();
        counting_sort(&mut data);
        assert!(data.windows(2).all(|w| w[0].0 <= w[1].0), "Array not sorted: {:?}", data);
        data.sort();
        assert_eq!(data.to_vec(), expected);
    }
}

#[test]
fn heuristics_agree_on_a_matching_that_is_forced() {
    let input = "######\n\
                 #    #\n\
                 # $$ #\n\
                 # .. #\n\
                 #  @ #\n\
                 ######";
    let game = Game::from_text(input).unwrap();
    assert_eq!(NullHeuristic::new_push(&game).compute(&game), Cost(0));
    assert_eq!(GreedyHeuristic::new_push(&game).compute(&game), Cost(2));
    assert_eq!(HungarianHeuristic::new_push(&game).compute(&game), Cost(2));
}

#[test]
fn pull_heuristic_measures_from_the_boxes_start() {
    // In the reverse search the goals are the destinations of the pulls.
    let game = Game::from_text("#####\n#@$.#\n#####").unwrap();
    let reverse = game.swap_boxes_and_goals();
    let heuristic = SimpleHeuristic::new_pull(&reverse);
    assert_eq!(heuristic.compute(&reverse), Cost(1));
}

#[test]
fn unreachable_goal_costs_unsolvable() {
    let game = Game::from_text("######\n#@$#.#\n######").unwrap();
    let heuristic = SimpleHeuristic::new_push(&game);
    assert_eq!(heuristic.compute(&game), Cost::unsolvable());
    assert_eq!(usize::from(Cost(7)), 7);
}

#[test]
fn push_distances_count_the_pushes_along_a_corridor() {
    let game = Game::from_text("#######\n#@$  .#\n#######").unwrap();
    assert_eq!(SimpleHeuristic::new_push(&game).compute(&game), Cost(3));
    assert_eq!(GreedyHeuristic::new_push(&game).compute(&game), Cost(3));
    assert_eq!(HungarianHeuristic::new_push(&game).compute(&game), Cost(3));
}
