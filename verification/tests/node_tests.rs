use npuzzle::heuristic::Heuristic;
use npuzzle::node::Node;
use npuzzle::puzzle::Puzzle;

#[test]
fn down_swap() {
    let size = 3;
    let data = vec![0, 1, 2, 3, 4, 5, 6, 8, 7];
    let puzzle = Puzzle { data, size };
    let result_data = vec![3, 1, 2, 0, 4, 5, 6, 8, 7];
    let result_puzzle = Puzzle {
        data: result_data,
        size,
    };

    assert_eq!(Node::swap_two_positions(&puzzle, 0, 0, 0, 1), result_puzzle);
}

#[test]
fn right_swap() {
    let size = 3;
    let data = vec![0, 1, 2, 3, 4, 5, 6, 8, 7];
    let puzzle = Puzzle { data, size };
    let result_data = vec![1, 0, 2, 3, 4, 5, 6, 8, 7];
    let result_puzzle = Puzzle {
        data: result_data,
        size,
    };

    assert_eq!(Node::swap_two_positions(&puzzle, 0, 0, 1, 0), result_puzzle);
}

#[test]
fn two_dir() {
    let size = 3;

    let puzzle = Puzzle {
        data: vec![0, 1, 2, 3, 4, 5, 6, 8, 7],
        size,
    };

    let result1 = Puzzle {
        data: vec![3, 1, 2, 0, 4, 5, 6, 8, 7],
        size,
    };

    let result2 = Puzzle {
        data: vec![1, 0, 2, 3, 4, 5, 6, 8, 7],
        size,
    };

    assert_eq!(Node::calculate_next_states(&puzzle), vec![result1, result2]);
}

#[test]
fn three_and_four_dir() {
    let size = 3;
    let edge = Puzzle {
        data: vec![1, 0, 2, 3, 4, 5, 6, 8, 7],
        size,
    };
    let next = Node::calculate_next_states(&edge);
    assert_eq!(next.len(), 3);
    assert_eq!(next[0].data, vec![1, 4, 2, 3, 0, 5, 6, 8, 7]);
    assert_eq!(next[1].data, vec![0, 1, 2, 3, 4, 5, 6, 8, 7]);
    assert_eq!(next[2].data, vec![1, 2, 0, 3, 4, 5, 6, 8, 7]);

    let inside = Puzzle {
        data: vec![1, 2, 3, 8, 0, 4, 7, 6, 5],
        size,
    };
    let next = Node::calculate_next_states(&inside);
    assert_eq!(next.len(), 4);
    assert_eq!(next[0].data, vec![1, 0, 3, 8, 2, 4, 7, 6, 5]);
    assert_eq!(next[1].data, vec![1, 2, 3, 8, 6, 4, 7, 0, 5]);
    assert_eq!(next[2].data, vec![1, 2, 3, 0, 8, 4, 7, 6, 5]);
    assert_eq!(next[3].data, vec![1, 2, 3, 8, 4, 0, 7, 6, 5]);
}

#[test]
fn successors_differ_in_two_cells() {
    for size in 2..5usize {
        let count = size * size;
        for blank in 0..count {
            let mut data: Vec<usize> = (1..count).collect();
            data.insert(blank, 0);
            let puzzle = Puzzle { data, size };
            let next = Node::calculate_next_states(&puzzle);
            let x = blank % size;
            let y = blank / size;
            let mut wanted = 4;
            if x == 0 || x == size - 1 {
                wanted -= 1;
            }
            if y == 0 || y == size - 1 {
                wanted -= 1;
            }
            assert_eq!(next.len(), wanted);
            for state in next {
                let differing = (0..count).filter(|&i| state.data[i] != puzzle.data[i]).count();
                assert_eq!(differing, 2);
                assert_eq!(state.size, size);
            }
        }
    }
}

#[test]
fn node_equals() {
    let len = 0;
    let size = 3;
    let data = vec![0, 1, 2, 3, 4, 5, 6, 8, 7];
    let puzzle = Puzzle { data, size };
    let node = Node {
        state: puzzle,
        g_score: len,
        h_score: len,
    };

    let len2 = 0;
    let data2 = vec![0, 1, 2, 3, 4, 5, 6, 8, 7];
    let puzzle2 = Puzzle { data: data2, size };
    let node2 = Node {
        state: puzzle2,
        g_score: len2,
        h_score: len2,
    };

    assert_eq!(node, node2);
}

#[test]
fn node_not_equals() {
    let len = 0;
    let size = 3;
    let data = vec![0, 1, 2, 3, 4, 5, 6, 8, 7];
    let puzzle = Puzzle { data, size };
    let node = Node {
        state: puzzle,
        g_score: len,
        h_score: len,
    };

    let data2 = vec![0, 1, 2, 3, 4, 5, 6, 7, 8];
    let puzzle2 = Puzzle { data: data2, size };
    let node2 = Node {
        state: puzzle2,
        g_score: len,
        h_score: len + 1,
    };

    assert_ne!(node, node2);
}

#[test]
fn scores_do_not_tell_nodes_apart() {
    let state = || Puzzle {
        data: vec![0, 1, 2, 3, 4, 5, 6, 8, 7],
        size: 3,
    };
    let cheap = Node {
        state: state(),
        g_score: 1,
        h_score: 2,
    };
    let dear = Node {
        state: state(),
        g_score: 7,
        h_score: 2,
    };
    assert_eq!(cheap, dear);
    assert_eq!(cheap.f_score(), 3);
    assert_eq!(dear.f_score(), 9);
}

#[test]
fn copies_and_starting_nodes() {
    let node = Node {
        state: Puzzle {
            data: vec![0, 1, 2, 3, 4, 5, 6, 8, 7],
            size: 3,
        },
        g_score: 4,
        h_score: 5,
    };
    let copy = node.partial_copy();
    assert_eq!(copy.state.data, node.state.data);
    assert_eq!(copy.state.size, 3);
    assert_eq!(copy.g_score, 4);
    assert_eq!(copy.h_score, 5);
    let clone = node.clone();
    assert_eq!(clone.g_score, 4);
    assert_eq!(clone.h_score, 5);

    let start = Node::new_starting_node(
        Puzzle {
            data: vec![1, 2, 0, 3],
            size: 2,
        },
        Heuristic::Manhattan,
    );
    assert_eq!(start.state.data, vec![1, 2, 0, 3]);
    assert_eq!(start.g_score, 0);
    assert_eq!(start.h_score, 0);
    let start = Node::new_starting_node(
        Puzzle {
            data: vec![1, 2, 3, 0],
            size: 2,
        },
        Heuristic::Manhattan,
    );
    assert_eq!(start.h_score, 1);

    let goal = Node::get_final_node(3);
    assert_eq!(goal.state.data, vec![1, 2, 3, 8, 0, 4, 7, 6, 5]);
    assert_eq!(goal.g_score, 0);
    assert_eq!(goal.h_score, 0);
}

#[test]
fn next_nodes_cost_one_more_and_are_scored() {
    let parent = Node {
        state: Puzzle {
            data: vec![1, 2, 3, 8, 0, 4, 7, 6, 5],
            size: 3,
        },
        g_score: 5,
        h_score: 0,
    };
    let childs = Node::calculate_next_nodes(parent, Node::get_final_node(3), Heuristic::Manhattan);
    assert_eq!(childs.len(), 4);
    for child in &childs {
        assert_eq!(child.g_score, 6);
        assert_eq!(child.h_score, 1);
    }
    assert_eq!(childs[0].state.data, vec![1, 0, 3, 8, 2, 4, 7, 6, 5]);
    assert_eq!(childs[3].state.data, vec![1, 2, 3, 8, 4, 0, 7, 6, 5]);
}

#[test]
fn nodes_are_ordered_by_cost_plus_estimate() {
    let state = || Puzzle {
        data: vec![0, 1, 2, 3, 4, 5, 6, 8, 7],
        size: 3,
    };
    let low = Node {
        state: state(),
        g_score: 1,
        h_score: 2,
    };
    let high = Node {
        state: state(),
        g_score: 4,
        h_score: 0,
    };
    let same = Node {
        state: Puzzle {
            data: vec![1, 0, 2, 3, 4, 5, 6, 8, 7],
            size: 3,
        },
        g_score: 0,
        h_score: 3,
    };
    assert!(low < high);
    assert!(high > low);
    assert!(low <= same && low >= same);
    assert_eq!(low.partial_cmp(&same), Some(std::cmp::Ordering::Equal));
    let huge = Node {
        state: state(),
        g_score: usize::MAX,
        h_score: usize::MAX,
    };
    assert!(high < huge);
    assert_eq!(huge.wide_f_score(), 2 * (usize::MAX as u128));
}

#[test]
fn node_as_text() {
    let node = Node {
        state: Puzzle {
            data: vec![1, 2, 0, 3],
            size: 2,
        },
        g_score: 12,
        h_score: 5,
    };
    assert_eq!(
        node.to_string(),
        "12 nodes away from the start position\n1  2  \n0  3  \n\n"
    );
}
