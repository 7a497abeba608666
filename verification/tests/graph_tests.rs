use npuzzle::error::PuzzleError;
use npuzzle::graph::{Graph, Solution};
use npuzzle::heuristic::Heuristic;
use npuzzle::node::Node;
use npuzzle::heuristic::side_fits;
use npuzzle::options::{
    get_algorithm, get_heuristic, get_mul, solve, Algorithm, AlgorithmValues, HeuristicValues, Opt,
};
use npuzzle::path::{recursive_path, retrieve_path, select_previous_node, walk};
use npuzzle::puzzle::Puzzle;
use std::collections::{HashMap, VecDeque};

fn empty_graph(heuristic: Heuristic) -> Graph {
    Graph {
        open_list: vec![],
        closed_list: vec![],
        start_node: Node::new_starting_node(
            Puzzle {
                data: vec![0, 0, 0, 0, 0, 0, 0, 0, 0],
                size: 3,
            },
            heuristic,
        ),
        final_node: Node::get_final_node(3),
        heuristic,
        g_mul: 1,
        h_mul: 1,
        max_states: 1,
    }
}

fn node(data: Vec<usize>, g_score: usize, h_score: usize) -> Node {
    Node {
        state: Puzzle { data, size: 3 },
        g_score,
        h_score,
    }
}

#[test]
fn dont_add_if_unnecessary() {
    let mut graph = empty_graph(Heuristic::ManhattanLinearConflict);

    let node1 = Node {
        state: Puzzle {
            data: vec![0, 1, 2, 3, 4, 5, 6, 8, 7],
            size: 3,
        },
        h_score: 1,
        g_score: 2,
    };

    let node2 = Node {
        state: Puzzle {
            data: vec![0, 1, 2, 3, 4, 5, 6, 8, 7],
            size: 3,
        },
        h_score: 1,
        g_score: 2,
    };

    graph.add_in_sorted_open_list(node1);
    graph.add_in_sorted_open_list(node2);

    assert_eq!(graph.open_list.iter().len(), 1);
}

#[test]
fn list_is_sorted() {
    let mut graph = empty_graph(Heuristic::Manhattan);

    let node1 = Node {
        state: Puzzle {
            data: vec![1, 2, 3, 8, 0, 4, 7, 6, 5],
            size: 3,
        },
        h_score: 1,
        g_score: 1,
    };

    let node2 = Node {
        state: Puzzle {
            data: vec![1, 2, 3, 8, 4, 5, 7, 6, 0],
            size: 3,
        },
        h_score: 5,
        g_score: 3,
    };

    let node3 = Node {
        state: Puzzle {
            data: vec![1, 2, 3, 8, 4, 0, 7, 6, 5],
            size: 3,
        },
        h_score: 3,
        g_score: 2,
    };

    graph.add_in_sorted_open_list(node1.clone());
    graph.add_in_sorted_open_list(node2.clone());
    graph.add_in_sorted_open_list(node3.clone());

    assert_eq!(graph.open_list.len(), 3);
    assert_eq!(graph.open_list[0], node2);
    assert_eq!(graph.open_list[1], node3);
    assert_eq!(graph.open_list[2], node1);
}

#[test]
fn equal_rank_goes_behind() {
    let mut graph = empty_graph(Heuristic::Manhattan);
    graph.add_in_sorted_open_list(node(vec![1, 2, 3, 8, 0, 4, 7, 6, 5], 1, 4));
    graph.add_in_sorted_open_list(node(vec![1, 2, 3, 8, 4, 0, 7, 6, 5], 2, 3));
    graph.add_in_sorted_open_list(node(vec![1, 2, 3, 8, 4, 5, 7, 6, 0], 3, 2));
    assert_eq!(graph.open_list[0].g_score, 1);
    assert_eq!(graph.open_list[1].g_score, 2);
    assert_eq!(graph.open_list[2].g_score, 3);
    assert_eq!(graph.max_states, 3);
}

#[test]
fn expanded_state_is_dropped() {
    let mut graph = empty_graph(Heuristic::Manhattan);
    graph.add_to_closed_list(node(vec![1, 2, 3, 8, 0, 4, 7, 6, 5], 4, 0));
    graph.add_in_sorted_open_list(node(vec![1, 2, 3, 8, 0, 4, 7, 6, 5], 1, 0));
    assert_eq!(graph.open_list.len(), 0);
    assert_eq!(graph.closed_list.len(), 1);
    assert_eq!(graph.closed_list[0].g_score, 4);
    assert_eq!(graph.max_states, 1);
}

#[test]
fn cheaper_node_takes_the_place() {
    let mut graph = empty_graph(Heuristic::Manhattan);
    graph.add_in_sorted_open_list(node(vec![1, 2, 3, 8, 0, 4, 7, 6, 5], 9, 1));
    graph.add_in_sorted_open_list(node(vec![1, 2, 3, 8, 4, 0, 7, 6, 5], 4, 1));
    graph.add_in_sorted_open_list(node(vec![1, 2, 3, 8, 4, 5, 7, 6, 0], 2, 1));
    // the first state again, cheaper: it moves to the end
    graph.add_in_sorted_open_list(node(vec![1, 2, 3, 8, 0, 4, 7, 6, 5], 1, 1));
    assert_eq!(graph.open_list.len(), 3);
    assert_eq!(graph.open_list[0].g_score, 4);
    assert_eq!(graph.open_list[1].g_score, 2);
    assert_eq!(graph.open_list[2].g_score, 1);
    assert_eq!(graph.open_list[2].state.data, vec![1, 2, 3, 8, 0, 4, 7, 6, 5]);
    // dearer: nothing changes
    graph.add_in_sorted_open_list(node(vec![1, 2, 3, 8, 4, 0, 7, 6, 5], 7, 1));
    assert_eq!(graph.open_list.len(), 3);
    assert_eq!(graph.open_list[0].g_score, 4);
    assert_eq!(graph.max_states, 3);
}

#[test]
fn update_cost_moves_the_node() {
    let mut graph = empty_graph(Heuristic::Manhattan);
    graph.add_to_open_list(node(vec![1, 2, 3, 8, 0, 4, 7, 6, 5], 9, 0));
    graph.add_to_open_list(node(vec![1, 2, 3, 8, 4, 0, 7, 6, 5], 5, 0));
    graph.update_cost(node(vec![1, 2, 3, 8, 0, 4, 7, 6, 5], 3, 0));
    assert_eq!(graph.open_list.len(), 2);
    assert_eq!(graph.open_list[0].g_score, 5);
    assert_eq!(graph.open_list[1].g_score, 3);
    graph.update_cost(node(vec![1, 2, 3, 8, 4, 0, 7, 6, 5], 5, 0));
    assert_eq!(graph.open_list[0].g_score, 5);
    assert_eq!(graph.open_list[1].g_score, 3);
}

#[test]
fn weights_enter_the_rank() {
    let mut graph = empty_graph(Heuristic::Manhattan);
    graph.g_mul = 0;
    graph.h_mul = 2;
    assert_eq!(graph.rank_of(&node(vec![1, 2, 3, 8, 0, 4, 7, 6, 5], 9, 4)), 8);
    graph.g_mul = 3;
    assert_eq!(graph.rank_of(&node(vec![1, 2, 3, 8, 0, 4, 7, 6, 5], 9, 4)), 35);
    graph.add_to_open_list(node(vec![1, 2, 3, 8, 0, 4, 7, 6, 5], 2, 1));
    assert!(graph.is_lower_cost(&node(vec![1, 2, 3, 8, 0, 4, 7, 6, 5], 2, 1)));
    assert!(graph.is_lower_cost(&node(vec![1, 2, 3, 8, 0, 4, 7, 6, 5], 3, 1)));
    assert!(!graph.is_lower_cost(&node(vec![1, 2, 3, 8, 0, 4, 7, 6, 5], 1, 1)));
    assert!(graph.is_lower_cost(&node(vec![1, 2, 3, 8, 4, 0, 7, 6, 5], 0, 0)));
}

#[test]
fn children_are_offered_last_first() {
    let mut graph = empty_graph(Heuristic::Manhattan);
    let parent = node(vec![1, 2, 3, 8, 0, 4, 7, 6, 5], 0, 0);
    graph.add_child_nodes_to_open_list(parent);
    assert_eq!(graph.open_list.len(), 4);
    // all of rank two; the child found last stands last
    assert_eq!(graph.open_list[0].state.data, vec![1, 2, 3, 8, 4, 0, 7, 6, 5]);
    assert_eq!(graph.open_list[1].state.data, vec![1, 2, 3, 0, 8, 4, 7, 6, 5]);
    assert_eq!(graph.open_list[2].state.data, vec![1, 2, 3, 8, 6, 4, 7, 0, 5]);
    assert_eq!(graph.open_list[3].state.data, vec![1, 0, 3, 8, 2, 4, 7, 6, 5]);
    for child in &graph.open_list {
        assert_eq!(child.g_score, 1);
        assert_eq!(child.h_score, 1);
    }
    assert_eq!(graph.max_states, 4);
}

fn neighbours(state: &Vec<usize>, size: usize) -> Vec<Vec<usize>> {
    Node::calculate_next_states(&Puzzle {
        data: state.clone(),
        size,
    })
    .into_iter()
    .map(|puzzle| puzzle.data)
    .collect()
}

fn distances_from_goal(size: usize, depth: usize) -> HashMap<Vec<usize>, usize> {
    let goal = Puzzle::get_final_state(size).data;
    let mut distances = HashMap::new();
    let mut queue = VecDeque::new();
    distances.insert(goal.clone(), 0usize);
    queue.push_back(goal);
    while let Some(state) = queue.pop_front() {
        let here = distances[&state];
        if here == depth {
            continue;
        }
        for next in neighbours(&state, size) {
            if !distances.contains_key(&next) {
                distances.insert(next.clone(), here + 1);
                queue.push_back(next);
            }
        }
    }
    distances
}

fn check_solution(start: &Vec<usize>, size: usize, solution: &Solution) {
    let goal = Puzzle::get_final_state(size).data;
    assert_eq!(solution.path.len(), solution.final_node.g_score + 1);
    assert_eq!(solution.moves(), solution.final_node.g_score);
    assert_eq!(&solution.path[0].data, start);
    assert_eq!(solution.path[solution.path.len() - 1].data, goal);
    assert_eq!(solution.final_node.state.data, goal);
    for k in 0..solution.path.len() - 1 {
        assert_eq!(solution.path[k].size, size);
        assert!(neighbours(&solution.path[k].data, size).contains(&solution.path[k + 1].data));
    }
}

#[test]
fn search_from_the_goal_takes_no_move() {
    for size in 2..5usize {
        for heuristic in [
            Heuristic::Hamming,
            Heuristic::Manhattan,
            Heuristic::LinearConflict,
            Heuristic::ManhattanLinearConflict,
        ] {
            let start = Puzzle::get_final_state(size);
            let solution = Graph::a_star(start.clone(), heuristic, 1, 1).unwrap();
            assert_eq!(solution.final_node.g_score, 0);
            assert_eq!(solution.path.len(), 1);
            assert_eq!(solution.path[0], start);
            let solution = Graph::recursive(start.clone(), heuristic, 1, 1).unwrap();
            assert_eq!(solution.final_node.g_score, 0);
            assert_eq!(solution.path.len(), 1);
        }
    }
}

#[test]
fn goal_shaped_start_is_solved_at_once() {
    let start = Puzzle::new_from_file(vec![1, 2, 3, 8, 0, 4, 7, 6, 5], 3).unwrap();
    let solution = Graph::a_star(start, Heuristic::ManhattanLinearConflict, 1, 1).unwrap();
    assert_eq!(solution.moves(), 0);
}

#[test]
fn exchanged_tiles_cannot_be_solved() {
    assert_eq!(
        Puzzle::new_from_file(vec![2, 1, 3, 8, 0, 4, 7, 6, 5], 3),
        Err(PuzzleError::UnsolvablePuzzle)
    );
    assert_eq!(
        Puzzle::new_from_file(vec![0, 1, 2, 3, 4, 5, 6, 7, 8], 3),
        Err(PuzzleError::UnsolvablePuzzle)
    );
}

#[test]
fn search_is_exhausted_where_no_moves_lead_to_the_goal() {
    let start = Puzzle {
        data: vec![2, 1, 0, 3],
        size: 2,
    };
    assert!(!Puzzle::is_solvable(start.clone()));
    match Graph::a_star(start, Heuristic::Manhattan, 1, 1) {
        Err(error) => assert_eq!(error, PuzzleError::SearchExhausted),
        Ok(_) => panic!("twelve states, none of them the goal"),
    }
}

#[test]
fn every_state_of_side_two_is_solved_in_the_fewest_moves() {
    let distances = distances_from_goal(2, 100);
    assert_eq!(distances.len(), 12);
    for (state, distance) in &distances {
        for heuristic in [Heuristic::Hamming, Heuristic::Manhattan] {
            let start = Puzzle {
                data: state.clone(),
                size: 2,
            };
            let solution = Graph::a_star(start, heuristic, 1, 1).unwrap();
            check_solution(state, 2, &solution);
            assert_eq!(solution.moves(), *distance);
        }
    }
}

#[test]
fn near_states_of_side_three_are_solved_in_the_fewest_moves() {
    let distances = distances_from_goal(3, 9);
    for (state, distance) in &distances {
        let start = Puzzle {
            data: state.clone(),
            size: 3,
        };
        let solution = Graph::a_star(start.clone(), Heuristic::Manhattan, 1, 1).unwrap();
        check_solution(state, 3, &solution);
        assert_eq!(solution.moves(), *distance);
        for heuristic in [
            Heuristic::Hamming,
            Heuristic::Manhattan,
            Heuristic::LinearConflict,
            Heuristic::ManhattanLinearConflict,
        ] {
            assert!(heuristic.estimate(start.clone(), Puzzle::get_final_state(3)) <= *distance);
        }
        let solution =
            Graph::a_star(start, Heuristic::ManhattanLinearConflict, 1, 1).unwrap();
        assert_eq!(solution.moves(), *distance);
    }
}

#[test]
fn far_states_are_solved_in_the_fewest_moves() {
    for (data, moves) in [
        (vec![1, 8, 4, 0, 3, 5, 2, 7, 6], 15),
        (vec![0, 1, 2, 3, 4, 5, 6, 8, 7], 16),
        (vec![7, 8, 3, 6, 0, 4, 2, 1, 5], 12),
        (vec![7, 8, 3, 1, 0, 4, 6, 2, 5], 10),
    ] {
        let start = Puzzle::new_from_file(data.clone(), 3).unwrap();
        let solution = Graph::a_star(start.clone(), Heuristic::Manhattan, 1, 1).unwrap();
        check_solution(&data, 3, &solution);
        assert_eq!(solution.moves(), moves);
        let solution = Graph::a_star(start, Heuristic::Hamming, 1, 1).unwrap();
        check_solution(&data, 3, &solution);
        assert_eq!(solution.moves(), moves);
    }
}

#[test]
fn uniform_search_finds_the_fewest_moves() {
    for (data, moves) in [
        (vec![8, 1, 3, 7, 2, 4, 0, 6, 5], 4),
        (vec![8, 1, 3, 7, 2, 4, 6, 0, 5], 5),
        (vec![0, 8, 3, 7, 1, 4, 6, 2, 5], 8),
    ] {
        let start = Puzzle::new_from_file(data.clone(), 3).unwrap();
        let solution = Graph::a_star(start, Heuristic::Manhattan, 1, 0).unwrap();
        check_solution(&data, 3, &solution);
        assert_eq!(solution.moves(), moves);
    }
}

#[test]
fn greedy_search_finds_some_way() {
    let data = vec![7, 8, 3, 1, 0, 4, 6, 2, 5];
    let start = Puzzle::new_from_file(data.clone(), 3).unwrap();
    let solution = Graph::a_star(start, Heuristic::Manhattan, 0, 1).unwrap();
    check_solution(&data, 3, &solution);
    assert_eq!(solution.moves(), 28);
}

#[test]
fn the_default_estimate_finds_the_fewest_moves() {
    for (data, moves) in [
        (vec![8, 1, 2, 6, 4, 5, 0, 7, 3], 14),
        (vec![1, 8, 4, 0, 3, 5, 2, 7, 6], 15),
        (vec![0, 1, 2, 3, 4, 5, 6, 8, 7], 16),
        (vec![2, 8, 3, 1, 0, 4, 7, 6, 5], 4),
    ] {
        let start = Puzzle::new_from_file(data.clone(), 3).unwrap();
        let solution =
            Graph::a_star(start.clone(), Heuristic::ManhattanLinearConflict, 1, 1).unwrap();
        check_solution(&data, 3, &solution);
        assert_eq!(solution.moves(), moves);
        let solution = Graph::a_star(start, Heuristic::Manhattan, 1, 1).unwrap();
        assert_eq!(solution.moves(), moves);
    }
}

#[test]
fn the_start_node_carries_its_estimate() {
    let state = || Puzzle {
        data: vec![2, 8, 3, 1, 0, 4, 7, 6, 5],
        size: 3,
    };
    let node = Node::new_starting_node(state(), Heuristic::Manhattan);
    assert_eq!(node.g_score, 0);
    assert_eq!(node.h_score, 4);
    assert_eq!(node.state, state());
    assert_eq!(Node::new_starting_node(state(), Heuristic::Hamming).h_score, 3);
    assert_eq!(Node::new_starting_node(state(), Heuristic::LinearConflict).h_score, 0);
    assert_eq!(
        Node::new_starting_node(state(), Heuristic::ManhattanLinearConflict).h_score,
        4
    );
    let goal = Node::new_starting_node(Puzzle::get_final_state(4), Heuristic::Manhattan);
    assert_eq!(goal.h_score, 0);
    // no board: no estimate
    let broken = Node::new_starting_node(
        Puzzle {
            data: vec![1, 1, 3, 0],
            size: 2,
        },
        Heuristic::Manhattan,
    );
    assert_eq!(broken.h_score, 0);
    assert_eq!(broken.state.data, vec![1, 1, 3, 0]);

    let solution = Graph::a_star(state(), Heuristic::Manhattan, 1, 1).unwrap();
    assert_eq!(solution.graph.start_node.h_score, 4);
    assert_eq!(solution.graph.start_node.g_score, 0);
    assert_eq!(solution.graph.start_node.state, state());
    assert_eq!(solution.graph.final_node.state, Puzzle::get_final_state(3));
    assert_eq!(solution.graph.heuristic, Heuristic::Manhattan);
    let solution = Graph::recursive(state(), Heuristic::Manhattan, 1, 1).unwrap();
    assert_eq!(solution.graph.start_node.h_score, 4);
}

#[test]
fn nothing_is_expanded_from_the_goal() {
    for size in 2..5usize {
        let solution = Graph::a_star(
            Puzzle::get_final_state(size),
            Heuristic::ManhattanLinearConflict,
            1,
            1,
        )
        .unwrap();
        assert_eq!(solution.graph.open_list.len(), 0);
        assert_eq!(solution.graph.closed_list.len(), 0);
        assert_eq!(solution.graph.max_states, 1);
        assert_eq!(solution.final_node.state.size, size);
    }
}

#[test]
fn search_statistics() {
    let data = vec![1, 8, 4, 0, 3, 5, 2, 7, 6];
    let start = Puzzle::new_from_file(data, 3).unwrap();
    let solution = Graph::a_star(start, Heuristic::Manhattan, 1, 1).unwrap();
    assert_eq!(solution.graph.closed_list.len(), 64);
    assert_eq!(solution.graph.open_list.len(), 48);
    assert_eq!(solution.graph.max_states, 49);
    let solution = Graph::a_star(
        Puzzle::new_from_file(vec![1, 8, 4, 0, 3, 5, 2, 7, 6], 3).unwrap(),
        Heuristic::ManhattanLinearConflict,
        1,
        1,
    )
    .unwrap();
    assert_eq!(solution.graph.closed_list.len(), 43);
    assert_eq!(solution.graph.open_list.len(), 34);
    assert_eq!(solution.graph.max_states, 35);
    let solution = Graph::a_star(
        Puzzle::new_from_file(vec![8, 1, 3, 7, 2, 4, 0, 6, 5], 3).unwrap(),
        Heuristic::Manhattan,
        1,
        1,
    )
    .unwrap();
    assert_eq!(solution.graph.closed_list.len(), 4);
    assert_eq!(solution.graph.open_list.len(), 3);
    assert_eq!(solution.graph.max_states, 4);
    assert_eq!(solution.graph.g_mul, 1);
    assert_eq!(solution.graph.h_mul, 1);
    assert_eq!(solution.graph.start_node.state.data, vec![8, 1, 3, 7, 2, 4, 0, 6, 5]);
    assert_eq!(solution.graph.start_node.h_score, 4);
    assert_eq!(solution.graph.final_node.state.data, vec![1, 2, 3, 8, 0, 4, 7, 6, 5]);
}

#[test]
fn side_four_is_solved() {
    // five moves away from the goal of side four
    let goal = Puzzle::get_final_state(4);
    let mut state = goal.clone();
    for step in [0usize, 2, 0, 3, 1] {
        let next = Node::calculate_next_states(&state);
        state = next[step % next.len()].clone();
    }
    let distance = {
        let distances = distances_from_goal(4, 5);
        distances[&state.data]
    };
    let solution = Graph::a_star(state.clone(), Heuristic::Manhattan, 1, 1).unwrap();
    check_solution(&state.data, 4, &solution);
    assert_eq!(solution.moves(), distance);
}

#[test]
fn depth_first_search_meets_a_goal_one_move_away() {
    let goal = Puzzle::get_final_state(3);
    for start in Node::calculate_next_states(&goal) {
        // with these estimates the goal ranks below the other neighbours of a state
        for heuristic in
            [Heuristic::Hamming, Heuristic::Manhattan, Heuristic::ManhattanLinearConflict]
        {
            for (g_mul, h_mul) in [(1, 1), (0, 1)] {
                let solution = Graph::recursive(start.clone(), heuristic, g_mul, h_mul).unwrap();
                check_solution(&start.data, 3, &solution);
                assert_eq!(solution.final_node.g_score, 1);
            }
        }
    }
}

#[test]
fn depth_first_search_gives_up_what_leads_nowhere() {
    // every neighbour of the node was given up before
    let mut graph = empty_graph(Heuristic::Manhattan);
    let node_state = vec![2, 1, 3, 8, 0, 4, 7, 6, 5];
    for state in neighbours(&node_state, 3) {
        graph.add_to_closed_list(node(state, 9, 0));
    }
    let found = graph.recursive_search(node(node_state.clone(), 1, 2));
    assert!(found.is_none());
    assert_eq!(graph.closed_list.len(), 5);
    assert_eq!(graph.closed_list[4].state.data, node_state);
    assert_eq!(graph.open_list.len(), 0);
}

#[test]
fn depth_first_search_close_to_the_goal() {
    for (data, moves) in [
        (vec![1, 2, 3, 0, 8, 4, 7, 6, 5], 1),
        (vec![1, 2, 3, 8, 4, 5, 7, 6, 0], 2),
        (vec![8, 1, 3, 7, 2, 4, 0, 6, 5], 4),
    ] {
        let start = Puzzle::new_from_file(data.clone(), 3).unwrap();
        let solution = Graph::recursive(start, Heuristic::Manhattan, 1, 1).unwrap();
        check_solution(&data, 3, &solution);
        assert_eq!(solution.moves(), moves);
    }
}

#[test]
fn names_choose_estimators_and_searches() {
    assert_eq!(get_heuristic(&HeuristicValues::Hamming), Heuristic::Hamming);
    assert_eq!(get_heuristic(&HeuristicValues::Manhattan), Heuristic::Manhattan);
    assert_eq!(get_heuristic(&HeuristicValues::Linear), Heuristic::LinearConflict);
    assert_eq!(get_heuristic(&HeuristicValues::M2L), Heuristic::ManhattanLinearConflict);
    assert_eq!(get_algorithm(&AlgorithmValues::Recursive), Algorithm::Recursive);
    assert_eq!(get_algorithm(&AlgorithmValues::Astar), Algorithm::BestFirst);
    assert_eq!(get_algorithm(&AlgorithmValues::Greedy), Algorithm::BestFirst);
    assert_eq!(get_algorithm(&AlgorithmValues::Uniform), Algorithm::BestFirst);
    assert_eq!(get_mul(&AlgorithmValues::Recursive), (1, 1));
    assert_eq!(get_mul(&AlgorithmValues::Astar), (1, 1));
    assert_eq!(get_mul(&AlgorithmValues::Greedy), (0, 1));
    assert_eq!(get_mul(&AlgorithmValues::Uniform), (1, 0));
}

#[test]
fn chosen_search_runs() {
    let opt = Opt {
        heuristic: HeuristicValues::Manhattan,
        algorithm: AlgorithmValues::Uniform,
        size: None,
        file: None,
    };
    let (g_mul, h_mul) = get_mul(&opt.algorithm);
    let data = vec![8, 1, 3, 7, 2, 4, 0, 6, 5];
    let start = Puzzle::new_from_file(data.clone(), 3).unwrap();
    let solution = get_algorithm(&opt.algorithm)
        .run(start.clone(), get_heuristic(&opt.heuristic), g_mul, h_mul)
        .unwrap();
    check_solution(&data, 3, &solution);
    assert_eq!(solution.moves(), 4);
    let solution = Algorithm::Recursive
        .run(start, Heuristic::Manhattan, 1, 1)
        .unwrap();
    check_solution(&data, 3, &solution);
}

#[test]
fn normal_use_case() {
    let data1 = vec![1, 2, 3, 8, 0, 4, 7, 6, 5];
    let node1 = Node {
        state: Puzzle {
            data: data1,
            size: 3,
        },
        h_score: 1,
        g_score: 1,
    };
    let data3 = vec![1, 2, 3, 8, 4, 5, 7, 6, 0];
    let node3 = Node {
        state: Puzzle {
            data: data3,
            size: 3,
        },
        h_score: 1,
        g_score: 3,
    };
    let data2 = vec![1, 2, 3, 8, 4, 0, 7, 6, 5];
    let node2 = Node {
        state: Puzzle {
            data: data2,
            size: 3,
        },
        h_score: 1,
        g_score: 2,
    };

    let graph = Graph {
        open_list: vec![node1.clone(), node2.clone(), node3.clone()],
        closed_list: vec![],
        start_node: node3.clone(),
        final_node: node1.clone(),
        heuristic: Heuristic::Hamming,
        g_mul: 1,
        h_mul: 1,
        max_states: 0,
    };

    let found = select_previous_node(node2, graph).unwrap();
    assert_eq!(found, node1);
    assert_eq!(found.g_score, 1);
    assert_eq!(found.h_score, 1);
}

#[test]
fn dead_end() {
    let data1 = vec![1, 2, 3, 8, 0, 4, 7, 6, 5];
    let node1 = Node {
        state: Puzzle {
            data: data1,
            size: 3,
        },
        h_score: 1,
        g_score: 2,
    };
    let start_node = Node {
        state: Puzzle {
            data: vec![1, 2, 3, 4, 5, 6, 7, 8, 0],
            size: 0,
        },
        h_score: 0,
        g_score: 0,
    };

    let graph = Graph {
        open_list: vec![node1.clone()],
        closed_list: vec![],
        start_node,
        final_node: node1.clone(),
        heuristic: Heuristic::Hamming,
        g_mul: 1,
        h_mul: 1,
        max_states: 0,
    };

    assert_eq!(
        select_previous_node(node1, graph),
        Err(PuzzleError::DeadEndInPath)
    );
}

#[test]
fn previous_node_is_looked_up_among_the_expanded_too() {
    let graph = Graph {
        open_list: vec![node(vec![1, 2, 3, 8, 4, 0, 7, 6, 5], 5, 0)],
        closed_list: vec![
            node(vec![1, 2, 3, 0, 8, 4, 7, 6, 5], 1, 7),
            node(vec![1, 2, 3, 8, 4, 0, 7, 6, 5], 1, 9),
        ],
        start_node: node(vec![1, 2, 3, 8, 0, 4, 7, 6, 5], 0, 0),
        final_node: Node::get_final_node(3),
        heuristic: Heuristic::Hamming,
        g_mul: 1,
        h_mul: 1,
        max_states: 0,
    };
    // the candidates are tried from the last: right before left
    let found = select_previous_node(node(vec![1, 2, 3, 8, 0, 4, 7, 6, 5], 2, 0), graph).unwrap();
    assert_eq!(found.h_score, 9);
}

fn small_graph() -> (Graph, Node) {
    let data1 = vec![1, 2, 3, 8, 0, 4, 7, 6, 5];
    let node1 = Node {
        state: Puzzle {
            data: data1,
            size: 3,
        },
        h_score: 1,
        g_score: 0,
    };
    let data2 = vec![1, 2, 3, 8, 4, 0, 7, 6, 5];
    let node2 = Node {
        state: Puzzle {
            data: data2,
            size: 3,
        },
        h_score: 1,
        g_score: 1,
    };
    let data3 = vec![1, 2, 3, 8, 4, 5, 7, 6, 0];
    let node3 = Node {
        state: Puzzle {
            data: data3,
            size: 3,
        },
        h_score: 1,
        g_score: 2,
    };

    let graph = Graph {
        open_list: vec![node1.clone(), node2.clone(), node3.clone()],
        closed_list: vec![],
        start_node: node3.clone(),
        final_node: node1,
        heuristic: Heuristic::Hamming,
        g_mul: 1,
        h_mul: 1,
        max_states: 0,
    };
    (graph, node3)
}

#[test]
fn print_small_solution() {
    let (graph, node3) = small_graph();

    assert_eq!(
        recursive_path(&node3, graph),
        "1  2  3  \n\
         8  0  4  \n\
         7  6  5  \n\
         \n\
         1  2  3  \n\
         8  4  0  \n\
         7  6  5  \n\
         \n\
         1  2  3  \n\
         8  4  5  \n\
         7  6  0  \n\
         \n"
    );
}

#[test]
fn walk_back_reaches_the_start_or_tells() {
    let (graph, node3) = small_graph();
    let (complete, path) = walk(&node3, &graph);
    assert!(complete);
    assert_eq!(path.len(), 3);
    assert_eq!(path[0].data, vec![1, 2, 3, 8, 0, 4, 7, 6, 5]);
    assert_eq!(path[2].data, vec![1, 2, 3, 8, 4, 5, 7, 6, 0]);

    let path = retrieve_path(&node3, &graph).unwrap();
    assert_eq!(path.len(), 3);
    assert_eq!(path[1].data, vec![1, 2, 3, 8, 4, 0, 7, 6, 5]);

    let (mut graph, node3) = small_graph();
    graph.open_list.remove(0);
    assert_eq!(
        retrieve_path(&node3, &graph),
        Err(PuzzleError::DeadEndInPath)
    );
    let (complete, path) = walk(&node3, &graph);
    assert!(!complete);
    assert_eq!(path.len(), 2);
    assert_eq!(path[0].data, vec![1, 2, 3, 8, 4, 0, 7, 6, 5]);
    assert_eq!(
        recursive_path(&node3, graph),
        "1  2  3  \n8  4  0  \n7  6  5  \n\n1  2  3  \n8  4  5  \n7  6  0  \n\n"
    );
}

#[test]
fn boards_as_text() {
    let puzzle = Puzzle {
        data: vec![1, 2, 0, 3],
        size: 2,
    };
    assert_eq!(puzzle.to_string(), "1  2  \n0  3  \n");
    let wide = Puzzle {
        data: vec![10, 200, 3000, 40000],
        size: 2,
    };
    assert_eq!(wide.to_string(), "10 200\n300040000\n");
    let large = Puzzle::get_final_state(11);
    let text = large.to_string();
    assert!(text.starts_with("1   2   3   4   5   6   7   8   9   10  11  \n40  41  "));
    assert!(text.ends_with("21  \n"));
    assert_eq!(text.len(), 11 * (11 * 4 + 1));
}

#[test]
fn solve_turns_faulty_states_away() {
    let solved = |data: Vec<usize>, size: usize| {
        solve(
            Puzzle { data, size },
            &HeuristicValues::Manhattan,
            &AlgorithmValues::Astar,
        )
        .map(|solution| solution.moves())
    };
    assert_eq!(solved(vec![0], 1), Err(PuzzleError::InvalidSize));
    assert_eq!(solved(vec![], 0), Err(PuzzleError::InvalidSize));
    assert_eq!(solved(vec![0, 1, 2, 3], usize::MAX), Err(PuzzleError::InvalidSize));
    assert_eq!(solved(vec![1, 2, 3, 3], 2), Err(PuzzleError::ValueNotFound));
    assert_eq!(solved(vec![1, 2, 4, 3], 2), Err(PuzzleError::ValueNotFound));
    assert_eq!(solved(vec![1, 2, 0], 2), Err(PuzzleError::ValueNotFound));
    assert_eq!(solved(vec![1, 2, 0, 3, 4], 2), Err(PuzzleError::ValueNotFound));
    assert_eq!(
        solved(vec![0, 1, 2, 3, 4, 5, 6, 7, 8], 3),
        Err(PuzzleError::UnsolvablePuzzle)
    );
    assert_eq!(
        solved(vec![2, 1, 3, 8, 0, 4, 7, 6, 5], 3),
        Err(PuzzleError::UnsolvablePuzzle)
    );
    assert_eq!(solved(vec![1, 2, 3, 8, 0, 4, 7, 6, 5], 3), Ok(0));
    assert_eq!(solved(vec![1, 8, 4, 0, 3, 5, 2, 7, 6], 3), Ok(15));
    assert_eq!(solved(vec![1, 0, 3, 2], 2), Ok(2));
}

#[test]
fn solve_by_every_name() {
    let data = vec![8, 1, 3, 7, 2, 4, 0, 6, 5];
    for heuristic in [
        HeuristicValues::Hamming,
        HeuristicValues::Manhattan,
        HeuristicValues::Linear,
        HeuristicValues::M2L,
    ] {
        for algorithm in [
            AlgorithmValues::Astar,
            AlgorithmValues::Greedy,
            AlgorithmValues::Uniform,
        ] {
            let start = Puzzle {
                data: data.clone(),
                size: 3,
            };
            let solution = solve(start, &heuristic, &algorithm).unwrap();
            check_solution(&data, 3, &solution);
            if algorithm != AlgorithmValues::Greedy {
                assert_eq!(solution.moves(), 4);
            }
        }
    }
    let start = Puzzle {
        data: data.clone(),
        size: 3,
    };
    let solution = solve(start, &HeuristicValues::Manhattan, &AlgorithmValues::Recursive).unwrap();
    check_solution(&data, 3, &solution);
}

#[test]
fn sides_that_fit() {
    assert!(side_fits(0));
    assert!(side_fits(3));
    assert!(side_fits(1000));
    assert!(!side_fits(usize::MAX));
    assert!(!side_fits(1 << (usize::BITS / 2)));
    // the largest side whose cube, taken four times, fits
    let mut side: usize = 1;
    while (side as u128 + 1).pow(3) * 4 <= usize::MAX as u128 {
        side += 1;
    }
    assert!(side_fits(side));
    assert!(!side_fits(side + 1));
}
