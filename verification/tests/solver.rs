use std::collections::HashMap;

use takuzu::grid_cell::Symbol;
use takuzu::level_builder::{LevelBuilder, LevelState, SolveStep, Solver, TimedStep};

/// A state from rows of 'X', 'Y' and '.' (blank); every id gets an entry.
fn state(rows: &[&str]) -> LevelState {
    let mut cells = HashMap::new();
    let mut id = 0;
    for row in rows {
        for ch in row.chars() {
            let s = match ch {
                'X' => Symbol::X,
                'Y' => Symbol::Y,
                _ => Symbol::Empty,
            };
            cells.insert(id, s);
            id += 1;
        }
    }
    LevelState { cells }
}

fn builder(n: i32) -> LevelBuilder {
    LevelBuilder { columns: n }
}

const SOLVED: [&str; 6] = ["XXYXYY", "XXYXYY", "YYXYXX", "XXYXYY", "YYXYXX", "YYXYXX"];
const EMPTY: [&str; 6] = ["......", "......", "......", "......", "......", "......"];

#[test]
fn forced_third_of_pair_is_other_symbol() {
    let st = state(&["XX....", "......", "......", "......", "......", "......"]);
    assert_eq!(builder(6).get_forced_symbol(&st, 2), Some(Symbol::Y));
}

#[test]
fn forced_middle_between_equal_symbols() {
    let st = state(&["X.X...", "......", "......", "......", "......", "......"]);
    assert_eq!(builder(6).get_forced_symbol(&st, 1), Some(Symbol::Y));
}

#[test]
fn forced_first_before_pair() {
    let st = state(&[".YY...", "......", "......", "......", "......", "......"]);
    assert_eq!(builder(6).get_forced_symbol(&st, 0), Some(Symbol::X));
}

#[test]
fn forced_vertical_pair() {
    let st = state(&["Y.....", "Y.....", "......", "......", "......", "......"]);
    assert_eq!(builder(6).get_forced_symbol(&st, 12), Some(Symbol::X));
}

#[test]
fn forced_by_full_row_count() {
    let st = state(&["X.X.X.", "......", "......", "......", "......", "......"]);
    assert_eq!(builder(6).get_forced_symbol(&st, 5), Some(Symbol::Y));
}

#[test]
fn not_forced_when_free_or_stuck() {
    let free = state(&EMPTY);
    assert_eq!(builder(6).get_forced_symbol(&free, 7), None);
    // both symbols ruled out: X by the row pair, Y by the column pair
    let stuck = state(&["XX.Y..", "...Y..", "......", "......", "......", "......"]);
    assert_eq!(builder(6).get_forced_symbol(&stuck, 2), Some(Symbol::Y));
    let stuck2 = state(&["XX....", "..Y...", "..Y...", "......", "......", "......"]);
    assert_eq!(builder(6).get_forced_symbol(&stuck2, 2), None);
}

#[test]
fn three_in_row_detection_for_placement() {
    let st = state(&["X.....", "X.....", "......", "......", "......", "......"]);
    let b = builder(6);
    assert!(b.would_create_three_in_row(&st, 2, 0, &Symbol::X));
    assert!(!b.would_create_three_in_row(&st, 2, 0, &Symbol::Y));
    assert!(!b.would_create_three_in_row(&st, 3, 0, &Symbol::X));
}

#[test]
fn valid_placement_and_symbols() {
    let st = state(&["XX....", "......", "......", "......", "......", "......"]);
    let b = builder(6);
    assert!(!b.is_valid_placement(&st, 2, &Symbol::X));
    assert!(b.is_valid_placement(&st, 2, &Symbol::Y));
    assert_eq!(b.get_valid_symbols(&st, 2), vec![Symbol::Y]);
    assert_eq!(b.get_valid_symbols(&st, 20), vec![Symbol::X, Symbol::Y]);
}

#[test]
fn counts_per_line() {
    let st = state(&SOLVED);
    let b = builder(6);
    for i in 0..6 {
        assert_eq!(b.count_symbol_in_row(&st, i, &Symbol::X), 3);
        assert_eq!(b.count_symbol_in_col(&st, i, &Symbol::Y), 3);
    }
    let st2 = state(&["XXY...", "X.....", "......", "......", "......", "......"]);
    assert_eq!(b.count_symbol_in_row(&st2, 0, &Symbol::X), 2);
    assert_eq!(b.count_symbol_in_col(&st2, 0, &Symbol::X), 2);
    assert_eq!(b.count_symbol_in_row(&st2, 0, &Symbol::Empty), 3);
}

#[test]
fn coordinates_round_trip() {
    let b = builder(6);
    assert_eq!(b.coords_to_id(2, 3), 15);
    assert_eq!(b.id_to_coords(15), (2, 3));
    assert_eq!(b.id_to_coords(35), (5, 5));
}

#[test]
fn solved_grid_validates() {
    let st = state(&SOLVED);
    let b = builder(6);
    assert!(b.solved(&st));
    assert!(b.validate_final_solution(&st));
    assert!(!b.has_three_in_row(&st));
    assert!(!b.in_impossible_state(&st));
}

#[test]
fn unbalanced_grid_does_not_validate() {
    let st = state(&["XXYXYY", "XXYXYY", "YYXYXX", "XXYXYY", "YYXYXX", "YYXYXY"]);
    let b = builder(6);
    assert!(b.solved(&st));
    assert!(!b.validate_final_solution(&st));
}

#[test]
fn three_in_row_found() {
    let b = builder(6);
    assert!(b.has_three_in_row(&state(&["..XXX.", "......", "......", "......", "......", "......"])));
    assert!(b.has_three_in_row(&state(&["......", "....Y.", "....Y.", "....Y.", "......", "......"])));
    assert!(!b.has_three_in_row(&state(&["XX.XX.", "......", "......", "......", "......", "......"])));
}

#[test]
fn impossible_states() {
    let b = builder(6);
    // four X in a row of six
    assert!(b.in_impossible_state(&state(&["X.XX.X", "......", "......", "......", "......", "......"])));
    // three in a row
    assert!(b.in_impossible_state(&state(&["YYY...", "......", "......", "......", "......", "......"])));
    // blank cell with no option
    assert!(b.in_impossible_state(&state(&["XX.Y..", "...Y..", "......", "......", "......", "......"])) == false);
    assert!(b.in_impossible_state(&state(&["XX....", "..Y...", "..Y...", "......", "......", "......"])));
    assert!(!b.in_impossible_state(&state(&EMPTY)));
}

#[test]
fn pressure_of_lines() {
    let b = builder(6);
    let st = state(&["XX.Y..", "......", "......", "......", "......", "......"]);
    // two X and one Y in row 0
    assert_eq!(b.calculate_constraint_pressure(&st, 0, true), 2 + 1);
    assert_eq!(b.calculate_constraint_pressure(&st, 1, true), 0);
    assert_eq!(b.calculate_constraint_pressure(&st, 0, false), 1);
    // one more X in row 0 brings it closer to its limits
    let more = state(&["XX.YX.", "......", "......", "......", "......", "......"]);
    assert_eq!(b.calculate_constraint_pressure(&more, 0, true), 4);
    // counts stop at the limit of half the width
    let full = state(&["XXXXY.", "......", "......", "......", "......", "......"]);
    assert_eq!(b.calculate_constraint_pressure(&full, 0, true), 3 + 1);
}

#[test]
fn best_cell_prefers_lines_close_to_their_limits() {
    let b = builder(6);
    let st = state(&["X.Y...", "......", "......", "......", "......", "......"]);
    // cells 20 and 1 both take either symbol; cell 1's row and column are
    // closer to their limits, so it replaces cell 20
    assert_eq!(b.calculate_constraint_pressure(&st, 3, true) + b.calculate_constraint_pressure(&st, 2, false), 1);
    assert_eq!(b.calculate_constraint_pressure(&st, 0, true) + b.calculate_constraint_pressure(&st, 1, false), 2);
    assert_eq!(b.choose_best_cell(&st, &vec![20, 1]), Some(1));
    assert_eq!(b.choose_best_cell(&st, &vec![1, 20]), Some(1));
}

#[test]
fn best_cell_prefers_single_option() {
    let b = builder(6);
    let st = state(&["XX....", "......", "......", "......", "......", "......"]);
    let order: Vec<i32> = (0..36).rev().collect();
    // cell 2 is the only one with a single option
    assert_eq!(b.choose_best_cell(&st, &order), Some(2));
    let empty = state(&EMPTY);
    let ids: Vec<i32> = (0..36).collect();
    // all cells have two options and equal pressure: the first wins
    assert_eq!(b.choose_best_cell(&empty, &ids), Some(0));
    let full = state(&SOLVED);
    assert_eq!(b.choose_best_cell(&full, &ids), None);
}

#[test]
fn propagation_fills_forced_cells() {
    let b = builder(6);
    let mut st = state(&["XX.X..", "......", "......", "......", "......", "......"]);
    b.propagate_all_constraints(&mut st);
    // cell 2 must be Y; then row has X X Y X, three X need ... cells 4, 5 follow
    assert_eq!(st.get(2), Some(Symbol::Y));
    assert_eq!(st.get(0), Some(Symbol::X));
    for id in 0..36 {
        if st.get(id) == Some(Symbol::Empty) {
            assert_eq!(b.get_forced_symbol(&st, id), None);
        }
    }
}

#[test]
fn filled_count_counts_symbols() {
    let st = state(&["XX.Y..", "......", "......", "......", "......", "......"]);
    assert_eq!(st.filled_count(), 3);
    assert_eq!(state(&SOLVED).filled_count(), 36);
}

fn solve(b: &LevelBuilder, start: LevelState) -> Option<LevelState> {
    let mut solver = Solver::new(start);
    let ids: Vec<i32> = (0..b.columns * b.columns).collect();
    for _ in 0..100_000 {
        match b.solve_step(&mut solver, &ids) {
            SolveStep::Solved(s) => return Some(s),
            SolveStep::Exhausted => return None,
            SolveStep::Searching => {}
        }
    }
    None
}

#[test]
fn solver_finds_a_valid_grid_from_empty() {
    let b = builder(6);
    let found = solve(&b, state(&EMPTY)).expect("a solution");
    assert!(b.validate_final_solution(&found));
    assert!(b.solved(&found));
    assert_eq!(found.filled_count(), 36);
}

#[test]
fn solver_keeps_given_symbols() {
    let b = builder(6);
    let start = state(&["X....Y", "......", "..Y...", "......", "....X.", "......"]);
    let found = solve(&b, start).expect("a solution");
    assert!(b.validate_final_solution(&found));
    assert_eq!(found.get(0), Some(Symbol::X));
    assert_eq!(found.get(5), Some(Symbol::Y));
    assert_eq!(found.get(14), Some(Symbol::Y));
    assert_eq!(found.get(28), Some(Symbol::X));
}

#[test]
fn solver_exhausts_on_impossible_start() {
    let b = builder(6);
    let start = state(&["XXX...", "......", "......", "......", "......", "......"]);
    assert!(solve(&b, start).is_none());
}

#[test]
fn solver_on_empty_stack_is_exhausted() {
    let b = builder(6);
    let mut solver = Solver { stack: Vec::new() };
    assert!(matches!(b.solve_step(&mut solver, &vec![]), SolveStep::Exhausted));
}

#[test]
fn solver_larger_grid() {
    let b = builder(8);
    let empty: Vec<String> = (0..8).map(|_| "........".to_string()).collect();
    let rows: Vec<&str> = empty.iter().map(|s| s.as_str()).collect();
    let found = solve(&b, state(&rows)).expect("a solution");
    assert!(b.validate_final_solution(&found));
}

/// Runs the search visiting the cells in reverse id order.
fn solve_reversed(b: &LevelBuilder, start: LevelState) -> Option<LevelState> {
    let mut solver = Solver::new(start);
    let ids: Vec<i32> = (0..b.columns * b.columns).rev().collect();
    for _ in 0..100_000 {
        match b.solve_step(&mut solver, &ids) {
            SolveStep::Solved(s) => return Some(s),
            SolveStep::Exhausted => return None,
            SolveStep::Searching => {}
        }
    }
    None
}

#[test]
fn solver_reaches_a_solution_whenever_one_exists() {
    let b = builder(6);
    // the solved grid with its first two rows and a few more cells blanked
    let start = state(&["......", "......", "Y.XY.X", "XXY..Y", "Y.XYX.", "YYX..X"]);
    let found = solve_reversed(&b, start).expect("a solution");
    assert!(b.validate_final_solution(&found));
    let given = state(&["......", "......", "Y.XY.X", "XXY..Y", "Y.XYX.", "YYX..X"]);
    for (id, s) in given.cells.iter() {
        if *s != Symbol::Empty {
            assert_eq!(found.get(*id), Some(*s));
        }
    }
    // the same puzzle in id order
    let again = solve(&b, state(&["......", "......", "Y.XY.X", "XXY..Y", "Y.XYX.", "YYX..X"]));
    assert!(again.is_some());
}

#[test]
fn valid_final_grid_is_solved_and_not_stuck() {
    for n in [6, 8] {
        let b = builder(n);
        let rows: Vec<String> = (0..n).map(|_| ".".repeat(n as usize)).collect();
        let refs: Vec<&str> = rows.iter().map(|s| s.as_str()).collect();
        let found = solve(&b, state(&refs)).expect("a solution");
        assert!(b.validate_final_solution(&found));
        assert!(b.solved(&found));
        assert!(!b.in_impossible_state(&found));
    }
    let b = builder(6);
    let full = state(&SOLVED);
    assert!(b.validate_final_solution(&full) && b.solved(&full) && !b.in_impossible_state(&full));
}

#[test]
fn timed_steps() {
    let b = builder(6);
    let ids: Vec<i32> = (0..36).collect();
    let mut solver = Solver::new(state(&EMPTY));
    // more than 8 s have passed: out of time, nothing explored
    assert!(matches!(b.timed_solve_step(&mut solver, &ids, 1000, 9001, 8), TimedStep::TimedOut));
    assert_eq!(solver.stack.len(), 1);
    // exactly 8 s: the step is taken
    assert!(matches!(b.timed_solve_step(&mut solver, &ids, 1000, 9000, 8), TimedStep::Went(SolveStep::Searching)));
    // an empty search is exhausted whatever the clock says
    let mut done = Solver { stack: Vec::new() };
    assert!(matches!(
        b.timed_solve_step(&mut done, &ids, 0, 1_000_000, 8),
        TimedStep::Went(SolveStep::Exhausted)
    ));
}

#[test]
fn widths_without_cells() {
    let b = builder(0);
    let empty = LevelState { cells: HashMap::new() };
    assert!(!b.has_three_in_row(&empty));
    assert!(b.validate_final_solution(&empty));
    let b = builder(-4);
    assert!(!b.has_three_in_row(&empty));
    assert!(b.validate_final_solution(&empty));
}
