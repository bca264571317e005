use takuzu::grid_cell::{CellProps, Constraint, ConstraintDirection, ConstraintProps, Symbol};
use takuzu::level::Level;
use takuzu::level_builder::RowColumn;
use takuzu::level_manager::{ClickOutcome, LevelManager, MoveError};

fn sym(ch: char) -> Symbol {
    match ch {
        'X' => Symbol::X,
        'Y' => Symbol::Y,
        _ => Symbol::Empty,
    }
}

fn level(rows: &[&str]) -> Level {
    let mut props = Vec::new();
    let mut id = 0;
    for row in rows {
        for ch in row.chars() {
            props.push(CellProps::new(id, sym(ch), vec![]));
            id += 1;
        }
    }
    let mut l = Level::default();
    l.build_with_props(props);
    l
}

fn blank_rows(n: usize) -> Vec<String> {
    (0..n).map(|_| ".".repeat(n)).collect()
}

fn rows_with(first: &str, n: usize) -> Vec<String> {
    let mut r = blank_rows(n);
    r[0] = first.to_string();
    r
}

fn as_refs(v: &[String]) -> Vec<&str> {
    v.iter().map(|s| s.as_str()).collect()
}

fn err_of(text: &str, line: i32) -> Result<(), (String, i32)> {
    Err((text.to_string(), line))
}

#[test]
fn too_many_in_row() {
    let rows = rows_with("X.XX.X", 6);
    let l = level(&as_refs(&rows));
    let m = LevelManager::default();
    assert_eq!(m.row_move_valid(&l, 0), err_of("Invalid: Too many(4) 'X' symbols in row: 0", 0));
    assert_eq!(
        m.move_valid(&l, 2),
        Err(("Invalid: Too many(4) 'X' symbols in row: 0".to_string(), RowColumn::Row(0)))
    );
    let e = MoveError::TooMany { count: 4, symbol: Symbol::X, line: 0 };
    assert_eq!(e.message(true), "Invalid: Too many(4) 'X' symbols in row: 0");
    assert_eq!(e.message(false), "Invalid: Too many(4) 'X' symbols in col: 0");
}

#[test]
fn three_consecutive_in_row() {
    let rows = rows_with(".YYY..", 6);
    let l = level(&as_refs(&rows));
    let m = LevelManager::default();
    assert_eq!(m.row_move_valid(&l, 0), err_of("Invalid: more than two consecutive 'Y' symbols in a row", 0));
}

#[test]
fn gap_starts_a_new_run() {
    // two X, a gap, then two more X: no three stand next to each other
    let rows = rows_with("XX.XX...", 8);
    let l = level(&as_refs(&rows));
    let m = LevelManager::default();
    assert_eq!(m.row_move_valid(&l, 0), Ok(()));
    // three X next to each other after a gap are still caught
    let rows = rows_with("X.XXX...", 8);
    let l = level(&as_refs(&rows));
    assert_eq!(m.row_move_valid(&l, 0), err_of("Invalid: more than two consecutive 'X' symbols in a row", 0));
    // the same down a column
    let rows = vec!["X.......", "X.......", "........", "X.......", "X.......", "........", "........", "........"];
    let l = level(&rows);
    assert_eq!(m.col_move_valid(&l, 0), Ok(()));
}

#[test]
fn too_many_in_column() {
    let rows = vec!["Y.....", "......", "Y.....", "Y.....", "......", "Y....."];
    let l = level(&rows);
    let m = LevelManager::default();
    assert_eq!(m.row_move_valid(&l, 0), Ok(()));
    assert_eq!(m.col_move_valid(&l, 0), err_of("Invalid: Too many(4) 'Y' symbols in col: 0", 0));
    assert_eq!(
        m.move_valid(&l, 0),
        Err(("Invalid: Too many(4) 'Y' symbols in col: 0".to_string(), RowColumn::Col(0)))
    );
}

#[test]
fn consecutive_in_column() {
    let rows = vec!["......", "..X...", "..X...", "..X...", "......", "......"];
    let l = level(&rows);
    let m = LevelManager::default();
    assert_eq!(m.col_move_valid(&l, 2), err_of("Invalid: more than two consecutive 'X' symbols in a col", 2));
}

#[test]
fn equal_mark_broken() {
    let rows = rows_with("XY....", 6);
    let mut l = level(&as_refs(&rows));
    l.add_constraint_props_at(0, ConstraintProps::new(Constraint::Equal, ConstraintDirection::Right));
    l.add_constraint_props_at(1, ConstraintProps::new(Constraint::Equal, ConstraintDirection::Left));
    let m = LevelManager::default();
    assert_eq!(
        m.row_move_valid(&l, 0),
        err_of("Invalid: Row Constraint 'Equal' is not fulfilled with cell 0 (X) and cell: 1 (Y)", 0)
    );
}

#[test]
fn equal_mark_with_blank_neighbour_is_kept() {
    let rows = rows_with("X.....", 6);
    let mut l = level(&as_refs(&rows));
    l.add_constraint_props_at(0, ConstraintProps::new(Constraint::Equal, ConstraintDirection::Right));
    let m = LevelManager::default();
    assert_eq!(m.row_move_valid(&l, 0), Ok(()));
}

#[test]
fn unequal_mark_broken_in_column() {
    let rows = vec!["Y.....", "Y.....", "......", "......", "......", "......"];
    let mut l = level(&rows);
    l.add_constraint_props_at(6, ConstraintProps::new(Constraint::NonEqual, ConstraintDirection::Top));
    let m = LevelManager::default();
    assert_eq!(
        m.col_move_valid(&l, 0),
        err_of("Invalid: Column Constraint 'Equal' is not fulfilled with cell 6 (Y) and cell: 0 (Y)", 0)
    );
}

#[test]
fn mark_pointing_back_wraps_to_last_cell() {
    // a left mark on cell 0 points at id -1, which names the last cell
    let mut rows = rows_with("X.....", 6);
    rows[5] = ".....X".to_string();
    let mut l = level(&as_refs(&rows));
    l.add_constraint_props_at(0, ConstraintProps::new(Constraint::NonEqual, ConstraintDirection::Left));
    let m = LevelManager::default();
    assert_eq!(
        m.row_move_valid(&l, 0),
        err_of("Invalid: Row Constraint 'Equal' is not fulfilled with cell 0 (X) and cell: -1 (X)", 0)
    );
}

#[test]
fn solved_check() {
    let solved = ["XXYXYY", "XXYXYY", "YYXYXX", "XXYXYY", "YYXYXX", "YYXYXX"];
    let l = level(&solved);
    let m = LevelManager::default();
    assert!(m.move_solved_puzzle(&l));
    assert_eq!(m.move_valid(&l, 7), Ok(()));
    let rows = rows_with("X.....", 6);
    assert!(!m.move_solved_puzzle(&level(&as_refs(&rows))));
}

#[test]
fn click_outcomes() {
    let solved = ["XXYXYY", "XXYXYY", "YYXYXX", "XXYXYY", "YYXYXX", "YYXYXX"];
    let mut m = LevelManager::default();
    assert_eq!(m.on_cell_clicked(0), None);
    m.start_level(level(&solved));
    assert_eq!(m.on_cell_clicked(0), Some(ClickOutcome::Solved));
    assert_eq!(m.on_cell_clicked(36), None);

    let rows = rows_with("X.X...", 6);
    let mut m = LevelManager::default();
    m.start_level(level(&as_refs(&rows)));
    assert_eq!(m.on_cell_clicked(2), Some(ClickOutcome::Valid));
    let l = m.get_active_level().unwrap();
    assert!(l.cells.iter().all(|c| !c.invalid && !c.disabled && !c.focused));
}

#[test]
fn invalid_click_locks_other_cells() {
    let rows = rows_with("XXX...", 6);
    let mut m = LevelManager::default();
    m.start_level(level(&as_refs(&rows)));
    assert_eq!(
        m.on_cell_clicked(2),
        Some(ClickOutcome::Invalid(MoveError::Consecutive { symbol: Symbol::X }, RowColumn::Row(0)))
    );
    let l = m.get_active_level().unwrap();
    for (i, c) in l.cells.iter().enumerate() {
        assert_eq!(c.invalid, i < 6, "cell {}", i);
        if i == 2 {
            assert!(!c.disabled && c.focused);
        } else {
            assert!(c.disabled && !c.focused);
        }
    }
}

#[test]
fn move_check_reaches_only_existing_cells() {
    let rows = blank_rows(6);
    let mut l = level(&as_refs(&rows));
    let m = LevelManager::default();
    // an empty level: every check stays inside
    assert!(m.move_check_ok(&l, 0));
    // no cell with that id: no move to check
    assert!(m.move_check_ok(&l, 100));
    // the last cell holds a symbol and a right mark that points past the grid
    l.cells[35].switch_to(Symbol::X);
    l.cells[35].add_constraint_props(ConstraintProps::new(Constraint::Equal, ConstraintDirection::Right));
    assert!(!m.move_check_ok(&l, 35));
    assert!(!m.move_check_ok(&l, 30));
    // a move in another row and column does not read that mark
    assert!(m.move_check_ok(&l, 0));
    // a broken row ends the check before the column's marks are read
    let mut w = level(&as_refs(&rows_with("XXX...", 6)));
    w.cells[5].switch_to(Symbol::Y);
    w.cells[35].switch_to(Symbol::X);
    w.cells[35].add_constraint_props(ConstraintProps::new(Constraint::Equal, ConstraintDirection::Bot));
    assert!(m.move_check_ok(&w, 5));
    assert!(!m.move_check_ok(&w, 11));
}
