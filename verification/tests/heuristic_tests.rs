use npuzzle::heuristic::{
    check_column_conflict, check_in_correct_column, check_in_correct_row, check_row_conflict,
    get_possible_values_in_column, get_possible_values_in_row, hamming_distance, linear_conflict,
    manhattan_distance, manhattan_linear_conflict_heuristic, Heuristic,
};
use npuzzle::puzzle::Puzzle;

#[test]
fn five_moved_tiles() {
    let size = 3;
    let data = vec![1, 2, 8, 0, 3, 4, 7, 5, 6];
    let puzzle = Puzzle { data, size };
    let heuristic = hamming_distance(puzzle, Puzzle::get_final_state(size));

    assert_eq!(heuristic, 4);
}

#[test]
fn no_moved_tile() {
    let size = 3;
    let data = vec![1, 2, 3, 8, 0, 4, 7, 6, 5];
    let puzzle = Puzzle { data, size };
    let heuristic = hamming_distance(puzzle, Puzzle::get_final_state(size));

    assert_eq!(heuristic, 0);
}

#[test]
fn every_tiles_moved() {
    let size = 3;
    let data = vec![7, 5, 6, 1, 2, 3, 8, 0, 4];
    let puzzle = Puzzle { data, size };
    let heuristic = hamming_distance(puzzle, Puzzle::get_final_state(size));

    assert_eq!(heuristic, 8);
}

#[test]
fn heuristic_five_moved_tiles() {
    let size = 3;
    let data = vec![1, 2, 8, 0, 3, 4, 7, 5, 6];
    let puzzle = Puzzle { data, size };
    let heuristic = manhattan_distance(puzzle, Puzzle::get_final_state(size));

    assert_eq!(heuristic, 7);
}

#[test]
fn heuristic_no_moved_tile() {
    let size = 3;
    let data = vec![1, 2, 3, 8, 0, 4, 7, 6, 5];
    let puzzle = Puzzle { data, size };
    let heuristic = manhattan_distance(puzzle, Puzzle::get_final_state(size));

    assert_eq!(heuristic, 0);
}

#[test]
fn heuristic_every_tiles_moved() {
    let size = 3;
    let data = vec![7, 5, 6, 1, 2, 3, 8, 0, 4];
    let puzzle = Puzzle { data, size };
    let heuristic = manhattan_distance(puzzle, Puzzle::get_final_state(size));

    assert_eq!(heuristic, 13);
}

#[test]
fn one_conflict_in_one_row() {
    let size = 3;
    let data = vec![2, 1, 3, 8, 0, 4, 7, 6, 5];
    let puzzle = Puzzle { data, size };
    let heuristic = linear_conflict(puzzle, Puzzle::get_final_state(size));

    assert_eq!(heuristic, 1);
}

#[test]
fn two_conflicts_in_one_row() {
    let size = 3;
    let data = vec![3, 2, 1, 8, 0, 4, 7, 6, 5];
    let puzzle = Puzzle { data, size };
    let heuristic = linear_conflict(puzzle, Puzzle::get_final_state(size));

    assert_eq!(heuristic, 2);
}

#[test]
fn one_conflict_in_one_column() {
    let size = 3;
    let data = vec![8, 2, 3, 1, 0, 4, 7, 6, 5];
    let puzzle = Puzzle { data, size };
    let heuristic = linear_conflict(puzzle, Puzzle::get_final_state(size));

    assert_eq!(heuristic, 1);
}

#[test]
fn two_conflicts_in_one_column() {
    let size = 3;
    let data = vec![7, 2, 3, 8, 0, 4, 1, 6, 5];
    let puzzle = Puzzle { data, size };
    let heuristic = linear_conflict(puzzle, Puzzle::get_final_state(size));

    assert_eq!(heuristic, 2);
}

#[test]
fn no_conflict() {
    let size = 3;
    let data = vec![1, 2, 3, 8, 0, 4, 7, 6, 5];
    let puzzle = Puzzle { data, size };
    let heuristic = linear_conflict(puzzle, Puzzle::get_final_state(size));

    assert_eq!(heuristic, 0);
}

#[test]
fn return_true() {
    let size = 3;
    let data = vec![8, 2, 3, 1, 0, 4, 7, 6, 5];
    let puzzle = Puzzle { data, size };
    let x = 0;
    let value = 1;
    let in_correct_column = check_in_correct_column(Puzzle::get_final_state(puzzle.size), value, x);

    assert!(in_correct_column);
}

#[test]
fn return_false() {
    let size = 3;
    let data = vec![2, 1, 3, 8, 0, 4, 7, 6, 5];
    let puzzle = Puzzle { data, size };
    let x = 1;
    let value = 1;
    let in_correct_column = check_in_correct_column(Puzzle::get_final_state(puzzle.size), value, x);

    assert!(!in_correct_column);
}

#[test]
fn heuristic_return_true() {
    let size = 3;
    let data = vec![3, 2, 1, 8, 0, 4, 7, 6, 5];
    let puzzle = Puzzle { data, size };
    let y = 0;
    let value = 1;
    let in_correct_column = check_in_correct_row(Puzzle::get_final_state(puzzle.size), value, y);

    assert!(in_correct_column);
}

#[test]
fn heuristic_return_false() {
    let size = 3;
    let data = vec![8, 2, 3, 1, 0, 4, 7, 6, 5];
    let puzzle = Puzzle { data, size };
    let y = 1;
    let value = 1;
    let in_correct_column = check_in_correct_row(Puzzle::get_final_state(puzzle.size), value, y);

    assert!(!in_correct_column);
}

#[test]
fn with_conflict() {
    let size = 3;
    let data = vec![8, 2, 3, 1, 0, 4, 7, 6, 5];
    let puzzle = Puzzle { data, size };
    let number_list: Vec<usize> = (0..(size * size)).collect();
    let value = 1;
    let x = 0;
    let heuristic = check_column_conflict(
        puzzle,
        Puzzle::get_final_state(size),
        value,
        x,
        &number_list,
    );

    assert_eq!(heuristic, 1);
}

#[test]
fn with_no_conflict() {
    let size = 3;
    let data = vec![2, 8, 3, 1, 0, 4, 7, 6, 5];
    let puzzle = Puzzle { data, size };
    let number_list: Vec<usize> = (0..(size * size)).collect();
    let value = 1;
    let x = 0;
    let heuristic = check_column_conflict(
        puzzle,
        Puzzle::get_final_state(size),
        value,
        x,
        &number_list,
    );

    assert_eq!(heuristic, 0);
}

#[test]
fn heuristic_with_conflict() {
    let size = 3;
    let data = vec![3, 2, 1, 8, 0, 4, 7, 6, 5];
    let puzzle = Puzzle { data, size };
    let number_list: Vec<usize> = (0..(size * size)).collect();
    let value = 1;
    let y = 0;
    let heuristic = check_row_conflict(
        puzzle,
        Puzzle::get_final_state(size),
        value,
        y,
        &number_list,
    );

    assert_eq!(heuristic, 1);
}

#[test]
fn heuristic_with_no_conflict() {
    let size = 3;
    let data = vec![8, 1, 3, 2, 0, 4, 7, 6, 5];
    let puzzle = Puzzle { data, size };
    let number_list: Vec<usize> = (0..(size * size)).collect();
    let value = 1;
    let y = 0;
    let heuristic = check_row_conflict(
        puzzle,
        Puzzle::get_final_state(size),
        value,
        y,
        &number_list,
    );

    assert_eq!(heuristic, 0);
}

#[test]
fn conflict_needs_the_tile_to_count_still() {
    let size = 3;
    let data = vec![3, 2, 1, 8, 0, 4, 7, 6, 5];
    let number_list: Vec<usize> = vec![0, 1, 4, 5, 6, 7, 8];
    let heuristic = check_row_conflict(
        Puzzle { data, size },
        Puzzle::get_final_state(size),
        1,
        0,
        &number_list,
    );

    assert_eq!(heuristic, 0);
}

#[test]
fn row_distance_of_one_with_incremental_range() {
    let final_puzzle = Puzzle {
        data: vec![1, 2, 3, 8, 0, 4, 7, 6, 5],
        size: 3,
    };
    let puzzle = Puzzle {
        data: vec![2, 1, 3, 8, 0, 4, 7, 6, 5],
        size: 3,
    };

    let value = 1;
    let possible_values = get_possible_values_in_row(puzzle, final_puzzle, value, 0);
    let wanted_values = vec![2];

    assert_eq!(possible_values, wanted_values);
}

#[test]
fn row_distance_of_one_with_decremental_range() {
    let final_puzzle = Puzzle {
        data: vec![1, 2, 3, 8, 0, 4, 7, 6, 5],
        size: 3,
    };
    let puzzle = Puzzle {
        data: vec![1, 3, 2, 8, 0, 4, 7, 6, 5],
        size: 3,
    };
    let value = 3;
    let possible_values = get_possible_values_in_row(puzzle, final_puzzle, value, 0);
    let wanted_values = vec![2];

    assert_eq!(possible_values, wanted_values);
}

#[test]
fn row_distance_of_two_with_incremental_range() {
    let final_puzzle = Puzzle {
        data: vec![1, 2, 3, 8, 0, 4, 7, 6, 5],
        size: 3,
    };
    let puzzle = Puzzle {
        data: vec![2, 3, 1, 8, 0, 4, 7, 6, 5],
        size: 3,
    };

    let value = 1;
    let possible_values = get_possible_values_in_row(puzzle, final_puzzle, value, 0);
    let wanted_values = vec![3, 2];

    assert_eq!(possible_values, wanted_values);
}

#[test]
fn row_distance_of_two_with_decremental_range() {
    let final_puzzle = Puzzle {
        data: vec![1, 2, 3, 8, 0, 4, 7, 6, 5],
        size: 3,
    };
    let puzzle = Puzzle {
        data: vec![3, 1, 2, 8, 0, 4, 7, 6, 5],
        size: 3,
    };
    let value = 3;
    let possible_values = get_possible_values_in_row(puzzle, final_puzzle, value, 0);
    let wanted_values = vec![1, 2];

    assert_eq!(possible_values, wanted_values);
}

#[test]
fn row_distance_of_zero() {
    let final_puzzle = Puzzle {
        data: vec![1, 2, 3, 8, 0, 4, 7, 6, 5],
        size: 3,
    };
    let puzzle = Puzzle {
        data: vec![1, 2, 3, 8, 0, 4, 7, 6, 5],
        size: 3,
    };

    let value = 1;
    let possible_values = get_possible_values_in_row(puzzle, final_puzzle, value, 0);
    let wanted_values: Vec<usize> = vec![];

    assert_eq!(possible_values, wanted_values);
}

#[test]
fn column_distance_of_one_with_incremental_range() {
    let final_puzzle = Puzzle {
        data: vec![1, 2, 3, 8, 0, 4, 7, 6, 5],
        size: 3,
    };
    let puzzle = Puzzle {
        data: vec![8, 2, 3, 1, 0, 4, 7, 6, 5],
        size: 3,
    };
    let value = 1;
    let possible_values = get_possible_values_in_column(puzzle, final_puzzle, value, 0);
    let wanted_values = vec![8];

    assert_eq!(possible_values, wanted_values);
}

#[test]
fn column_distance_of_one_with_decremental_range() {
    let final_puzzle = Puzzle {
        data: vec![1, 2, 3, 8, 0, 4, 7, 6, 5],
        size: 3,
    };
    let puzzle = Puzzle {
        data: vec![1, 2, 3, 7, 0, 4, 8, 6, 5],
        size: 3,
    };
    let value = 7;
    let possible_values = get_possible_values_in_column(puzzle, final_puzzle, value, 0);
    let wanted_values = vec![8];

    assert_eq!(possible_values, wanted_values);
}

#[test]
fn column_distance_of_two_with_incremental_range() {
    let final_puzzle = Puzzle {
        data: vec![1, 2, 3, 8, 0, 4, 7, 6, 5],
        size: 3,
    };
    let puzzle = Puzzle {
        data: vec![8, 2, 3, 7, 0, 4, 1, 6, 5],
        size: 3,
    };
    let value = 1;
    let possible_values = get_possible_values_in_column(puzzle, final_puzzle, value, 0);
    let wanted_values = vec![7, 8];

    assert_eq!(possible_values, wanted_values);
}

#[test]
fn column_distance_of_two_with_decremental_range() {
    let final_puzzle = Puzzle {
        data: vec![1, 2, 3, 8, 0, 4, 7, 6, 5],
        size: 3,
    };
    let puzzle = Puzzle {
        data: vec![7, 2, 3, 1, 0, 4, 8, 6, 5],
        size: 3,
    };
    let value = 7;
    let possible_values = get_possible_values_in_column(puzzle, final_puzzle, value, 0);
    let wanted_values = vec![1, 8];

    assert_eq!(possible_values, wanted_values);
}

#[test]
fn column_distance_of_zero() {
    let final_puzzle = Puzzle {
        data: vec![1, 2, 3, 8, 0, 4, 7, 6, 5],
        size: 3,
    };
    let puzzle = Puzzle {
        data: vec![1, 2, 3, 8, 0, 4, 7, 6, 5],
        size: 3,
    };
    let value = 1;
    let possible_values = get_possible_values_in_column(puzzle, final_puzzle, value, 0);
    let wanted_values: Vec<usize> = vec![];

    assert_eq!(possible_values, wanted_values);
}

#[test]
fn example_case() {
    let size = 3;
    let data = vec![1, 2, 3, 7, 4, 0, 8, 5, 6];
    let puzzle = Puzzle { data, size };
    let heuristic = manhattan_linear_conflict_heuristic(puzzle, Puzzle::get_final_state(size));

    assert_eq!(heuristic, 9);
}

#[test]
fn estimators_by_name() {
    let size = 3;
    let state = || Puzzle {
        data: vec![1, 2, 3, 7, 4, 0, 8, 5, 6],
        size,
    };
    let goal = || Puzzle::get_final_state(size);
    assert_eq!(Heuristic::Hamming.estimate(state(), goal()), 5);
    assert_eq!(Heuristic::Manhattan.estimate(state(), goal()), 5);
    assert_eq!(Heuristic::LinearConflict.estimate(state(), goal()), 2);
    assert_eq!(Heuristic::ManhattanLinearConflict.estimate(state(), goal()), 9);
}

#[test]
fn goal_scores_zero() {
    for size in 2..6usize {
        let goal = || Puzzle::get_final_state(size);
        assert_eq!(hamming_distance(goal(), goal()), 0);
        assert_eq!(manhattan_distance(goal(), goal()), 0);
        assert_eq!(linear_conflict(goal(), goal()), 0);
        assert_eq!(manhattan_linear_conflict_heuristic(goal(), goal()), 0);
    }
}

#[test]
fn one_move_from_the_goal() {
    let state = || Puzzle {
        data: vec![1, 2, 3, 0, 8, 4, 7, 6, 5],
        size: 3,
    };
    let goal = || Puzzle::get_final_state(3);
    assert_eq!(hamming_distance(state(), goal()), 1);
    assert_eq!(manhattan_distance(state(), goal()), 1);
    assert_eq!(linear_conflict(state(), goal()), 0);
    assert_eq!(manhattan_linear_conflict_heuristic(state(), goal()), 1);
}

#[test]
fn goal_shaped_start() {
    let state = || Puzzle {
        data: vec![1, 2, 3, 8, 0, 4, 7, 6, 5],
        size: 3,
    };
    let goal = || Puzzle::get_final_state(3);
    assert_eq!(hamming_distance(state(), goal()), 0);
    assert_eq!(manhattan_distance(state(), goal()), 0);
}

#[test]
fn two_tiles_exchanged_in_the_goal_row() {
    let state = || Puzzle {
        data: vec![2, 1, 3, 8, 0, 4, 7, 6, 5],
        size: 3,
    };
    let goal = || Puzzle::get_final_state(3);
    assert_eq!(manhattan_distance(state(), goal()), 2);
    assert!(linear_conflict(state(), goal()) > 0);
    assert_eq!(manhattan_linear_conflict_heuristic(state(), goal()), 4);
    assert!(!Puzzle::is_solvable(state()));
}

#[test]
fn a_tile_of_another_row_is_not_charged() {
    // four moves from the goal; tile 8 stands in row 0 but belongs in row 1
    let state = || Puzzle {
        data: vec![2, 8, 3, 1, 0, 4, 7, 6, 5],
        size: 3,
    };
    let goal = || Puzzle::get_final_state(3);
    assert_eq!(manhattan_distance(state(), goal()), 4);
    assert_eq!(linear_conflict(state(), goal()), 0);
    assert_eq!(manhattan_linear_conflict_heuristic(state(), goal()), 4);
    let state = || Puzzle {
        data: vec![8, 1, 3, 7, 2, 4, 0, 6, 5],
        size: 3,
    };
    assert_eq!(manhattan_distance(state(), goal()), 4);
    assert_eq!(linear_conflict(state(), goal()), 0);
    assert_eq!(manhattan_linear_conflict_heuristic(state(), goal()), 4);
}

#[test]
fn tiles_in_order_are_not_charged() {
    // tiles 1 and 2 stand in their row, both one column left of their place
    let goal = || Puzzle {
        data: vec![0, 1, 2, 3, 4, 5, 6, 7, 8],
        size: 3,
    };
    let state = || Puzzle {
        data: vec![1, 2, 0, 3, 4, 5, 6, 7, 8],
        size: 3,
    };
    assert_eq!(linear_conflict(state(), goal()), 0);
    assert_eq!(manhattan_linear_conflict_heuristic(state(), goal()), 2);
    // a falling run of three charges two; a tile between two that rise charges one
    let state = || Puzzle {
        data: vec![0, 2, 1, 5, 4, 3, 7, 8, 6],
        size: 3,
    };
    assert_eq!(linear_conflict(state(), goal()), 1 + 2 + 1);
    assert_eq!(
        check_row_conflict(state(), goal(), 3, 1, &[0, 1, 2, 3, 4, 5, 6, 7, 8]),
        1
    );
    assert_eq!(
        check_row_conflict(state(), goal(), 4, 1, &[0, 1, 2, 3, 4, 5, 6, 7, 8]),
        1
    );
    assert_eq!(
        check_row_conflict(state(), goal(), 5, 1, &[0, 1, 2, 3, 4, 5, 6, 7, 8]),
        0
    );
    assert_eq!(
        check_row_conflict(state(), goal(), 3, 1, &[0, 1, 2, 3, 5, 6, 7, 8]),
        1
    );
    assert_eq!(
        check_row_conflict(state(), goal(), 3, 2, &[0, 1, 2, 3, 4, 5, 6, 7, 8]),
        0
    );
    assert_eq!(
        check_column_conflict(state(), goal(), 3, 2, &[0, 1, 2, 3, 4, 5, 6, 7, 8]),
        0
    );
}

#[test]
fn no_conflict_away_from_the_goal() {
    let state = || Puzzle {
        data: vec![1, 2, 3, 0, 8, 4, 7, 6, 5],
        size: 3,
    };
    assert_eq!(linear_conflict(state(), Puzzle::get_final_state(3)), 0);
    assert_ne!(state(), Puzzle::get_final_state(3));
}
