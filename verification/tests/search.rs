use npuzzle::create_snail_goal;
use npuzzle::AType;
use npuzzle::Algo;
use npuzzle::Grid;
use npuzzle::HType;
use npuzzle::Node;
use npuzzle::State;

fn engine(map: Vec<u16>, h: HType, a: AType, max_weight: u32) -> Algo {
    let goal = Grid::new(create_snail_goal(3), 3);
    let grid = Grid::new(map, 3);
    let mut root = Node::new(State::new(0, 0, 0), grid);
    root.update_state(&goal, h, 1, false, u32::MAX);
    Algo::new(root, goal, h, a, 1, max_weight, u32::MAX, false)
}

#[test]
fn heuristics_at_goal_are_zero() {
    let goal = Grid::new(create_snail_goal(3), 3);
    let same = Grid::new(create_snail_goal(3), 3);
    assert_eq!(same.hamming(&goal), 0);
    assert_eq!(same.manhattan(&goal), 0);
    assert_eq!(same.linear_manhattan(&goal), 0);
}

#[test]
fn heuristic_chain_on_samples() {
    let goal = Grid::new(vec![1, 2, 3, 8, 0, 4, 7, 6, 5], 3);
    let samples = vec![
        vec![1, 2, 3, 4, 5, 6, 7, 8, 0],
        vec![3, 1, 2, 8, 0, 4, 7, 6, 5],
        vec![8, 6, 4, 7, 0, 5, 1, 2, 3],
        vec![1, 2, 5, 3, 0, 6, 7, 4, 8],
    ];
    for map in samples {
        let g = Grid::new(map, 3);
        let h = g.hamming(&goal);
        let m = g.manhattan(&goal);
        let lm = g.linear_manhattan(&goal);
        assert!(h <= m);
        assert!(m <= lm);
    }
}

#[test]
fn admissible_one_move_from_goal() {
    // one legal slide away from the goal: every admissible heuristic
    // must stay at or below the true remaining cost of 1
    let goal = Grid::new(vec![1, 2, 3, 8, 0, 4, 7, 6, 5], 3);
    let test = Grid::new(vec![1, 2, 3, 8, 4, 0, 7, 6, 5], 3);
    assert!(test.hamming(&goal) <= 1);
    assert!(test.manhattan(&goal) <= 1);
    assert!(test.linear_manhattan(&goal) <= 1);
}

#[test]
fn hamming_scenario() {
    let goal = Grid::new(vec![1, 2, 3, 8, 0, 4, 7, 6, 5], 3);
    let test = Grid::new(vec![1, 2, 3, 4, 5, 6, 7, 8, 0], 3);
    assert_eq!(test.hamming(&goal), 4);
}

#[test]
fn manhattan_scenario() {
    let goal = Grid::new(vec![1, 2, 3, 8, 0, 4, 7, 6, 5], 3);
    let test = Grid::new(vec![1, 2, 5, 3, 0, 6, 7, 4, 8], 3);
    assert_eq!(test.manhattan(&goal), 12);
}

#[test]
fn linear_conflict_scenario() {
    let goal = Grid::new(vec![1, 2, 3, 8, 0, 4, 7, 6, 5], 3);
    let test = Grid::new(vec![3, 1, 2, 8, 0, 4, 7, 6, 5], 3);
    assert_eq!(test.linear_conflict(&goal), 2);
    assert_eq!(test.linear_manhattan(&goal), test.manhattan(&goal) + 4);
}

#[test]
fn one_move_solved_by_both() {
    // the board is the goal with the blank slid once to the right
    let mut astar = engine(
        vec![1, 2, 3, 8, 4, 0, 7, 6, 5],
        HType::Manhattan,
        AType::AStar,
        1,
    );
    assert!(astar.resolve());
    assert_eq!(astar.get_total_cost(), 1);

    let mut idastar = engine(
        vec![1, 2, 3, 8, 4, 0, 7, 6, 5],
        HType::Manhattan,
        AType::IDAStar,
        1,
    );
    assert!(idastar.resolve());
    assert_eq!(idastar.get_total_cost(), 1);
}

#[test]
fn two_moves_solved_optimally() {
    // goal, blank slid right then down: the optimum is 2
    let mut astar = engine(
        vec![1, 2, 3, 8, 4, 5, 7, 6, 0],
        HType::LinearManhattan,
        AType::AStar,
        1,
    );
    assert!(astar.resolve());
    assert_eq!(astar.get_total_cost(), 2);

    let mut idastar = engine(
        vec![1, 2, 3, 8, 4, 5, 7, 6, 0],
        HType::LinearManhattan,
        AType::IDAStar,
        1,
    );
    assert!(idastar.resolve());
    assert_eq!(idastar.get_total_cost(), 2);
}

#[test]
fn solvable_boards_solved_with_optimal_cost() {
    // a handful of solvable boards; A* and IDA* (unweighted, admissible
    // heuristics) must agree on the optimal cost
    let boards = vec![
        vec![1, 0, 3, 8, 2, 4, 7, 6, 5],
        vec![1, 2, 3, 8, 4, 0, 7, 6, 5],
        vec![1, 2, 3, 0, 8, 4, 7, 6, 5],
        vec![2, 8, 3, 1, 6, 4, 7, 0, 5],
    ];
    for map in boards {
        let probe = Grid::new(map.clone(), 3);
        assert!(probe.solvable());
        let mut astar = engine(map.clone(), HType::Manhattan, AType::AStar, 1);
        assert!(astar.resolve());
        let mut idastar = engine(map.clone(), HType::LinearManhattan, AType::IDAStar, 1);
        assert!(idastar.resolve());
        assert_eq!(astar.get_total_cost(), idastar.get_total_cost());
        let mut hamming = engine(map, HType::Hamming, AType::AStar, 1);
        assert!(hamming.resolve());
        assert_eq!(hamming.get_total_cost(), astar.get_total_cost());
    }
}

#[test]
fn deterministic_runs() {
    // the same configuration twice: identical cost and counters
    let map = vec![2, 8, 3, 1, 6, 4, 7, 0, 5];
    let mut first = engine(map.clone(), HType::Manhattan, AType::AStar, 1);
    assert!(first.resolve());
    let mut second = engine(map.clone(), HType::Manhattan, AType::AStar, 1);
    assert!(second.resolve());
    assert_eq!(first.get_total_cost(), second.get_total_cost());
    assert_eq!(first.get_t_complex(), second.get_t_complex());
    assert_eq!(first.get_s_complex(), second.get_s_complex());

    let mut third = engine(map.clone(), HType::LinearManhattan, AType::IDAStar, 3);
    assert!(third.resolve());
    let mut fourth = engine(map, HType::LinearManhattan, AType::IDAStar, 3);
    assert!(fourth.resolve());
    assert_eq!(third.get_total_cost(), fourth.get_total_cost());
    assert_eq!(third.get_t_complex(), fourth.get_t_complex());
    assert_eq!(third.get_s_complex(), fourth.get_s_complex());
    assert_eq!(third.get_weight(), fourth.get_weight());
}

#[test]
fn weighted_cost_never_below_optimal() {
    // raising the weight may lengthen the found path, never shorten it
    let map = vec![2, 8, 3, 1, 6, 4, 7, 0, 5];
    let mut plain = engine(map.clone(), HType::Manhattan, AType::IDAStar, 1);
    assert!(plain.resolve());
    let mut weighted = engine(map, HType::Manhattan, AType::IDAStar, 5);
    assert!(weighted.resolve());
    assert!(weighted.get_total_cost() >= plain.get_total_cost());
    assert!(weighted.get_weight() >= plain.get_weight());
}

#[test]
fn unsolvable_board_fails_without_diverging() {
    // the goal with two tiles swapped flips the inversion parity, so
    // both searches must report failure; a node-count ceiling keeps the
    // test bounded
    let map = vec![1, 2, 3, 8, 0, 4, 7, 5, 6];
    let probe = Grid::new(map.clone(), 3);
    assert!(!probe.solvable());

    let mut astar = engine(map.clone(), HType::Manhattan, AType::AStar, 1);
    astar.set_node_limit(2000);
    assert!(!astar.resolve());

    let mut idastar = engine(map, HType::Manhattan, AType::IDAStar, 1);
    idastar.set_node_limit(2000);
    assert!(!idastar.resolve());
}

#[test]
fn solution_steps_walk_to_the_goal() {
    let map = vec![2, 8, 3, 1, 6, 4, 7, 0, 5];
    let mut astar = engine(map.clone(), HType::Manhattan, AType::AStar, 1);
    assert!(astar.resolve());
    let steps = astar.get_steps();
    assert_eq!(steps[0].get_map(), map);
    assert_eq!(
        steps[steps.len() - 1].get_map(),
        vec![1, 2, 3, 8, 0, 4, 7, 6, 5]
    );
    assert_eq!(steps.len() as u32, astar.get_total_cost() + 1);

    let mut idastar = engine(map.clone(), HType::Manhattan, AType::IDAStar, 1);
    assert!(idastar.resolve());
    let steps = idastar.get_steps();
    assert_eq!(steps[0].get_map(), map);
    assert_eq!(
        steps[steps.len() - 1].get_map(),
        vec![1, 2, 3, 8, 0, 4, 7, 6, 5]
    );
    assert_eq!(steps.len() as u32, idastar.get_total_cost() + 1);
}

#[test]
fn goal_parity_is_solvable() {
    let goal = Grid::new(vec![1, 2, 3, 8, 0, 4, 7, 6, 5], 3);
    assert!(goal.solvable());
}

#[test]
fn scrambled_boards_stay_solvable() {
    // new_random only applies legal slides to the goal, so the result
    // always stays in the goal's reachability class
    for lines in 3..5u8 {
        let puzzle = Grid::new_random(lines);
        assert!(puzzle.check());
        assert!(puzzle.solvable());
        assert_eq!(puzzle.get_lines(), lines);
    }
}

#[test]
fn algorithm_names_decode() {
    assert!(matches!(AType::from_str_or_default(None), Ok(AType::IDAStar)));
    assert!(matches!(
        AType::from_str_or_default(Some("astar")),
        Ok(AType::AStar)
    ));
    assert!(matches!(
        AType::from_str_or_default(Some("idastar")),
        Ok(AType::IDAStar)
    ));
    assert!(AType::from_str_or_default(Some("dijkstra")).is_err());
}

#[test]
fn heuristic_names_decode() {
    assert!(matches!(HType::from_str_or_default(None), Ok(HType::Hamming)));
    assert!(matches!(
        HType::from_str_or_default(Some("hamming")),
        Ok(HType::Hamming)
    ));
    assert!(matches!(
        HType::from_str_or_default(Some("manhattan")),
        Ok(HType::Manhattan)
    ));
    assert!(matches!(
        HType::from_str_or_default(Some("linear_manhattan")),
        Ok(HType::LinearManhattan)
    ));
    assert!(HType::from_str_or_default(Some("euclid")).is_err());
}

#[test]
fn closed_and_open_never_share_a_board() {
    let mut astar = engine(vec![2, 8, 3, 1, 6, 4, 7, 0, 5], HType::Manhattan, AType::AStar, 1);
    assert!(astar.resolve());
    for &o in astar.open_list.iter() {
        for &c in astar.closed_list.iter() {
            assert_ne!(
                astar.nodes[o].grid.get_map(),
                astar.nodes[c].grid.get_map()
            );
        }
    }
    for i in 0..astar.closed_list.len() {
        for j in i + 1..astar.closed_list.len() {
            assert_ne!(
                astar.nodes[astar.closed_list[i]].grid.get_map(),
                astar.nodes[astar.closed_list[j]].grid.get_map()
            );
        }
    }
}

#[test]
fn unsolvable_small_board_drains_the_open_list() {
    // on a 2 by 2 board the reachable half of the state space is tiny,
    // so A* exhausts it outright: failure comes from a drained open
    // list, not from the node budget
    let goal = Grid::new(create_snail_goal(2), 2);
    let grid = Grid::new(vec![2, 1, 0, 3], 2);
    assert!(!grid.solvable());
    let mut root = Node::new(State::new(0, 0, 0), grid);
    root.update_state(&goal, HType::Manhattan, 1, false, u32::MAX);
    let mut astar = Algo::new(
        root,
        goal,
        HType::Manhattan,
        AType::AStar,
        1,
        1,
        u32::MAX,
        false,
    );
    assert!(!astar.resolve());
    assert_eq!(astar.open_list.len(), 0);
    assert!(astar.get_t_complex() < u64::MAX);
    // the counters reflect real work: one pop per closed board, and the
    // space high-water mark covers everything still recorded
    assert_eq!(astar.get_t_complex(), astar.closed_list.len() as u64);
    assert!(astar.get_s_complex() >= astar.closed_list.len() as u64);
    assert_eq!(astar.get_total_cost(), 0);
}
