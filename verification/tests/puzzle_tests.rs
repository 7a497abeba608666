use npuzzle::error::PuzzleError;
use npuzzle::puzzle::Puzzle;

#[test]
fn get_0() {
    let puzzle = Puzzle {
        data: vec![1, 2, 3, 8, 0, 4, 7, 6, 5],
        size: 3,
    };

    assert_eq!(puzzle.get_value(1, 1), 0);
}

#[test]
fn get_7() {
    let puzzle = Puzzle {
        data: vec![1, 2, 3, 8, 0, 4, 7, 6, 5],
        size: 3,
    };

    assert_eq!(puzzle.get_value(0, 2), 7);
}

#[test]
fn get_15() {
    let puzzle = Puzzle {
        data: vec![1, 2, 3, 9, 8, 0, 4, 10, 7, 6, 5, 11, 12, 13, 14, 15],
        size: 4,
    };

    assert_eq!(puzzle.get_value(3, 3), 15);
}

#[test]
fn puzzle_get_0() {
    let puzzle = Puzzle {
        data: vec![1, 2, 3, 8, 0, 4, 7, 6, 5],
        size: 3,
    };

    assert_eq!(puzzle.get_position(0), Ok((1, 1)));
}

#[test]
fn puzzle_get_7() {
    let puzzle = Puzzle {
        data: vec![1, 2, 3, 8, 0, 4, 7, 6, 5],
        size: 3,
    };

    assert_eq!(puzzle.get_position(7), Ok((0, 2)));
}

#[test]
fn puzzle_get_15() {
    let puzzle = Puzzle {
        data: vec![1, 2, 3, 9, 8, 0, 4, 10, 7, 6, 5, 11, 12, 13, 14, 15],
        size: 4,
    };

    assert_eq!(puzzle.get_position(15), Ok((3, 3)));
}

#[test]
fn get_impossible() {
    let puzzle = Puzzle {
        data: vec![1, 2, 3, 8, 0, 4, 7, 6, 5],
        size: 3,
    };

    assert_eq!(puzzle.get_position(9), Err(PuzzleError::ValueNotFound));
}

#[test]
fn no_position_on_a_board_without_side() {
    let puzzle = Puzzle {
        data: vec![1, 2, 3],
        size: 0,
    };
    assert_eq!(puzzle.get_position(1), Err(PuzzleError::ValueNotFound));
    let empty = Puzzle {
        data: vec![],
        size: 0,
    };
    assert_eq!(empty.to_string(), "\n");
}

#[test]
fn get_position_takes_the_first_of_two() {
    let puzzle = Puzzle {
        data: vec![1, 2, 2, 0],
        size: 2,
    };

    assert_eq!(puzzle.get_position(2), Ok((1, 0)));
}

#[test]
fn change_0_to_9() {
    let mut puzzle = Puzzle {
        data: vec![1, 2, 3, 8, 0, 4, 7, 6, 5],
        size: 3,
    };
    let changed = Puzzle {
        data: vec![1, 2, 3, 8, 9, 4, 7, 6, 5],
        size: 3,
    };

    puzzle.set_value(1, 1, 9);
    assert_eq!(puzzle, changed);
}

#[test]
fn change_15_to_16() {
    let mut puzzle = Puzzle {
        data: vec![1, 2, 3, 9, 8, 0, 4, 10, 7, 6, 5, 11, 12, 13, 14, 15],
        size: 4,
    };
    let changed = Puzzle {
        data: vec![1, 2, 3, 9, 8, 0, 4, 10, 7, 6, 5, 11, 12, 13, 14, 16],
        size: 4,
    };

    puzzle.set_value(3, 3, 16);
    assert_eq!(puzzle, changed);
}

#[test]
fn size_three() {
    let size = 3;
    let expected_final_state = Puzzle {
        data: vec![1, 2, 3, 8, 0, 4, 7, 6, 5],
        size,
    };
    let result_data = Puzzle::get_final_state(size);

    assert_eq!(result_data, expected_final_state);
}

#[test]
fn size_five() {
    let size = 5;
    let expected_final_state = Puzzle {
        data: vec![
            1, 2, 3, 4, 5, 16, 17, 18, 19, 6, 15, 24, 0, 20, 7, 14, 23, 22, 21, 8, 13, 12, 11,
            10, 9,
        ],
        size,
    };
    let result_data = Puzzle::get_final_state(size);

    assert_eq!(result_data, expected_final_state);
}

#[test]
fn size_ten() {
    let size = 10;
    let expected_final_state = Puzzle {
        data: vec![
            1, 2, 3, 4, 5, 6, 7, 8, 9, 10, 36, 37, 38, 39, 40, 41, 42, 43, 44, 11, 35, 64, 65,
            66, 67, 68, 69, 70, 45, 12, 34, 63, 84, 85, 86, 87, 88, 71, 46, 13, 33, 62, 83, 96,
            97, 98, 89, 72, 47, 14, 32, 61, 82, 95, 0, 99, 90, 73, 48, 15, 31, 60, 81, 94, 93,
            92, 91, 74, 49, 16, 30, 59, 80, 79, 78, 77, 76, 75, 50, 17, 29, 58, 57, 56, 55, 54,
            53, 52, 51, 18, 28, 27, 26, 25, 24, 23, 22, 21, 20, 19,
        ],
        size,
    };
    let result_data = Puzzle::get_final_state(size);

    assert_eq!(result_data, expected_final_state);
}

#[test]
fn size_two_and_four() {
    assert_eq!(Puzzle::get_final_state(2).data, vec![1, 2, 0, 3]);
    assert_eq!(
        Puzzle::get_final_state(4).data,
        vec![1, 2, 3, 4, 12, 13, 14, 5, 11, 0, 15, 6, 10, 9, 8, 7]
    );
}

#[test]
fn goal_holds_every_value_once() {
    for size in 2..12usize {
        let goal = Puzzle::get_final_state(size);
        assert_eq!(goal.size, size);
        let mut seen = goal.data.clone();
        seen.sort();
        let wanted: Vec<usize> = (0..size * size).collect();
        assert_eq!(seen, wanted);
        assert!(Puzzle::is_solvable(goal));
    }
}

#[test]
fn puzzle_equals() {
    let size = 3;

    let data = vec![0, 1, 2, 3, 4, 5, 6, 8, 7];
    let puzzle = Puzzle { data, size };

    let data2 = vec![0, 1, 2, 3, 4, 5, 6, 8, 7];
    let puzzle2 = Puzzle { data: data2, size };

    assert_eq!(puzzle, puzzle2);
}

#[test]
fn puzzle_not_equals() {
    let size = 3;

    let data = vec![0, 1, 2, 3, 4, 5, 6, 8, 7];
    let puzzle = Puzzle { data, size };

    let data2 = vec![0, 2, 1, 3, 4, 5, 6, 8, 7];
    let puzzle2 = Puzzle { data: data2, size };
    assert_ne!(puzzle, puzzle2);
}

#[test]
fn clone_keeps_cells_and_side() {
    let puzzle = Puzzle {
        data: vec![1, 2, 3, 8, 0, 4, 7, 6, 5],
        size: 3,
    };
    let copy = puzzle.clone();
    assert_eq!(copy.data, vec![1, 2, 3, 8, 0, 4, 7, 6, 5]);
    assert_eq!(copy.size, 3);
}

#[test]
fn panic_because_size_less_than_two() {
    assert_eq!(Puzzle::new(1), Err(PuzzleError::InvalidSize));
    assert_eq!(Puzzle::new(0), Err(PuzzleError::InvalidSize));
    assert_eq!(Puzzle::new(usize::MAX), Err(PuzzleError::InvalidSize));
}

#[test]
fn correct_puzzle_of_size_three() {
    assert_eq!(Puzzle::new(3).unwrap().size, 3);
}

#[test]
fn correct_puzzle_of_size_ten() {
    assert_eq!(Puzzle::new(10).unwrap().size, 10);
}

#[test]
fn random_puzzle_is_a_solvable_permutation() {
    for size in 2..6usize {
        for _ in 0..20 {
            let puzzle = Puzzle::new(size).unwrap();
            let mut seen = puzzle.data.clone();
            seen.sort();
            let wanted: Vec<usize> = (0..size * size).collect();
            assert_eq!(seen, wanted);
            assert!(Puzzle::is_solvable(puzzle));
        }
    }
}

#[test]
fn random_puzzles_differ() {
    let first = Puzzle::new(6).unwrap();
    let mut differs = false;
    for _ in 0..10 {
        if Puzzle::new(6).unwrap() != first {
            differs = true;
        }
    }
    assert!(differs);
}

#[test]
fn picks_deal_the_tiles() {
    let picks = vec![0, 0, 0, 0];
    assert_eq!(Puzzle::from_picks(2, &picks).data, vec![0, 1, 2, 3]);
    let picks = vec![3, 2, 1, 0];
    assert_eq!(Puzzle::from_picks(2, &picks).data, vec![3, 2, 1, 0]);
    let picks = vec![1, 2, 0, 0];
    assert_eq!(Puzzle::from_picks(2, &picks).data, vec![1, 3, 0, 2]);
    let picks = vec![8, 0, 6, 0, 0, 3, 1, 1, 0];
    assert_eq!(
        Puzzle::from_picks(3, &picks).data,
        vec![8, 0, 7, 1, 2, 6, 4, 5, 3]
    );
}

#[test]
fn puzzle_solvable_puzzle() {
    let puzzle = Puzzle {
        data: vec![0, 1, 2, 3, 4, 5, 6, 8, 7],
        size: 3,
    };
    assert!(Puzzle::is_solvable(puzzle));
}

#[test]
fn puzzle_solvable_puzzle_already_solved() {
    let puzzle = Puzzle {
        data: vec![1, 2, 3, 8, 0, 4, 7, 6, 5],
        size: 3,
    };
    assert!(Puzzle::is_solvable(puzzle));
}

#[test]
fn solvable_puzzle_with_one_move() {
    let puzzle = Puzzle {
        data: vec![1, 2, 3, 0, 8, 4, 7, 6, 5],
        size: 3,
    };
    assert!(Puzzle::is_solvable(puzzle));
}

#[test]
fn solvable_puzzle_with_fifteen_moves() {
    let puzzle = Puzzle {
        data: vec![1, 8, 4, 0, 3, 5, 2, 7, 6],
        size: 3,
    };
    assert!(Puzzle::is_solvable(puzzle));
}

#[test]
fn puzzle_unsolvable_puzzle() {
    let puzzle = Puzzle {
        data: vec![0, 1, 2, 3, 4, 5, 6, 7, 8],
        size: 3,
    };
    assert_eq!(Puzzle::is_solvable(puzzle), false);
}

#[test]
fn solvable_on_even_side_counts_the_blank_row() {
    // One move away from the goal of side four, the blank one row up.
    let puzzle = Puzzle {
        data: vec![1, 2, 3, 4, 12, 0, 14, 5, 11, 13, 15, 6, 10, 9, 8, 7],
        size: 4,
    };
    assert!(Puzzle::is_solvable(puzzle));
    // Two tiles of the goal exchanged.
    let puzzle = Puzzle {
        data: vec![2, 1, 3, 4, 12, 13, 14, 5, 11, 0, 15, 6, 10, 9, 8, 7],
        size: 4,
    };
    assert!(!Puzzle::is_solvable(puzzle));
    let puzzle = Puzzle {
        data: vec![1, 2, 0, 3],
        size: 2,
    };
    assert!(Puzzle::is_solvable(puzzle));
    let puzzle = Puzzle {
        data: vec![1, 0, 2, 3],
        size: 2,
    };
    assert!(!Puzzle::is_solvable(puzzle));
}

#[test]
fn inversion_counts_pairs_out_of_order() {
    let puzzle = Puzzle {
        data: vec![1, 2, 3, 8, 0, 4, 7, 6, 5],
        size: 3,
    };
    assert_eq!(Puzzle::inversion(puzzle), 7);
    let puzzle = Puzzle {
        data: vec![0, 1, 2, 3, 4, 5, 6, 7, 8],
        size: 3,
    };
    assert_eq!(Puzzle::inversion(puzzle), 0);
    let puzzle = Puzzle {
        data: vec![8, 7, 6, 5, 4, 3, 2, 1, 0],
        size: 3,
    };
    assert_eq!(Puzzle::inversion(puzzle), 28);
}

#[test]
fn from_file_takes_a_solvable_puzzle() {
    let made = Puzzle::new_from_file(vec![1, 2, 3, 0, 8, 4, 7, 6, 5], 3).unwrap();
    assert_eq!(made.data, vec![1, 2, 3, 0, 8, 4, 7, 6, 5]);
    assert_eq!(made.size, 3);
}

#[test]
fn from_file_refuses_an_unsolvable_puzzle() {
    assert_eq!(
        Puzzle::new_from_file(vec![0, 1, 2, 3, 4, 5, 6, 7, 8], 3),
        Err(PuzzleError::UnsolvablePuzzle)
    );
}

#[test]
fn error_messages() {
    assert_eq!(PuzzleError::InvalidSize.message(), "Size should be higher than 1");
    assert_eq!(PuzzleError::UnsolvablePuzzle.message(), "Unsolvable puzzle");
    assert_eq!(
        PuzzleError::ValueNotFound.message(),
        "value not found inside the puzzle"
    );
    assert_eq!(
        PuzzleError::SearchExhausted.message(),
        "The graph has been completely explored, yet the goal state hasn't been reached"
    );
    assert_eq!(
        PuzzleError::DeadEndInPath.message(),
        "no previous state leads to this one"
    );
}

#[test]
fn valid_boards() {
    let valid = |data: Vec<usize>, size: usize| Puzzle { data, size }.is_valid();
    assert!(valid(vec![1, 2, 3, 8, 0, 4, 7, 6, 5], 3));
    assert!(valid(vec![0, 1, 2, 3], 2));
    assert!(valid(vec![3, 2, 1, 0], 2));
    assert!(!valid(vec![0], 1));
    assert!(!valid(vec![], 0));
    assert!(!valid(vec![0, 1, 2], 2));
    assert!(!valid(vec![0, 1, 2, 3, 4], 2));
    assert!(!valid(vec![0, 1, 2, 4], 2));
    assert!(!valid(vec![0, 1, 1, 3], 2));
    assert!(!valid(vec![0, 1, 2, 3], 3));
    assert!(!valid(vec![0, 1, 2, 3], usize::MAX));
    for size in 2..7usize {
        assert!(Puzzle::get_final_state(size).is_valid());
    }
}
