use sisyphus::game::Game;
use sisyphus::heuristic::SimpleHeuristic;
use sisyphus::solver::{SearchType, SolveResult, Solver, SolverOpts};

fn parse_game(text: &str) -> Game {
    Game::from_text(text.trim_matches('\n')).unwrap()
}

fn opts(search_type: SearchType) -> SolverOpts {
    SolverOpts {
        search_type,
        max_nodes_explored: 10000,
        freeze_deadlocks: true,
        dead_squares: true,
        pi_corrals: true,
        deadlock_max_nodes: 1000,
        trace_range: 0..0,
    }
}

fn new_solver(game: Game) -> Solver<SimpleHeuristic> {
    Solver::new(&game, opts(SearchType::Forward))
}

#[test]
fn test_solve_simple() {
    let game = parse_game(
        r#"
#####
#@$.#
#####
"#,
    );
    let mut solver = new_solver(game.clone());
    let result = solver.solve();

    if let (SolveResult::Solved(soln), _) = result {
        assert_eq!(soln.len(), 1);

        let mut test_game = game.clone();
        for push in soln {
            test_game.push(push);
        }
        assert!(test_game.is_solved());
    } else {
        panic!();
    }
}

#[test]
fn test_solve_already_solved() {
    let game = parse_game(
        r#"
####
#@*#
####
"#,
    );
    let mut solver = new_solver(game);
    let result = solver.solve();

    if let (SolveResult::Solved(moves), _) = result {
        assert_eq!(moves.len(), 0);
    } else {
        panic!();
    }
}

#[test]
fn test_solve_two_moves() {
    let game = parse_game(
        r#"
######
#@$ .#
######
"#,
    );
    let mut solver = new_solver(game.clone());
    let result = solver.solve();

    if let (SolveResult::Solved(soln), _) = result {
        assert_eq!(soln.len(), 2);

        let mut test_game = game.clone();
        for push in soln {
            test_game.push(push);
        }
        assert!(test_game.is_solved());
    } else {
        panic!();
    }
}

#[test]
fn test_solve_impossible() {
    let game = parse_game(
        r#"
#######
#@$ #.#
#######
"#,
    );
    let mut solver = new_solver(game);
    let result = solver.solve();
    assert_eq!(result.0, SolveResult::Unsolvable);
}

#[test]
fn reverse_and_bidirectional_searches_find_working_solutions() {
    let text = r#"
######
#    #
# $$ #
# .. #
#  @ #
######
"#;
    for search_type in [SearchType::Reverse, SearchType::Bidirectional, SearchType::Forward] {
        let game = parse_game(text);
        let mut solver: Solver<SimpleHeuristic> = Solver::new(&game, opts(search_type));
        let (result, _) = solver.solve();
        match result {
            SolveResult::Solved(soln) => {
                let mut test_game = game.clone();
                for push in soln {
                    test_game.push(push);
                }
                assert!(test_game.is_solved());
            }
            other => panic!("{:?}", other),
        }
    }
}

#[test]
fn node_limit_cuts_the_search_off() {
    let game = parse_game(
        r#"
########
#      #
# $$$  #
# ...  #
#    @ #
########
"#,
    );
    let mut o = opts(SearchType::Forward);
    o.max_nodes_explored = 1;
    let mut solver: Solver<SimpleHeuristic> = Solver::new(&game, o);
    let (result, _) = solver.solve();
    assert_eq!(result, SolveResult::Cutoff);
}

#[test]
fn solve_stops_at_the_node_limit() {
    let text = r#"
######
#    #
# $$ #
# .. #
#  @ #
######
"#;
    for max_nodes in [0usize, 1, 2] {
        let game = parse_game(text);
        let mut o = opts(SearchType::Forward);
        o.max_nodes_explored = max_nodes;
        let mut solver: Solver<SimpleHeuristic> = Solver::new(&game, o);
        let (result, nodes) = solver.solve();
        let limit = if max_nodes == 0 { 1 } else { max_nodes };
        assert_eq!(result, SolveResult::Cutoff);
        assert_eq!(nodes, limit);
        assert_eq!(solver.opts().max_nodes_explored, max_nodes);
    }
}
