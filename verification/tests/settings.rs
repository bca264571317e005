use std::collections::HashMap;

use takuzu::grid_cell::{CellProps, Constraint, ConstraintDirection, ConstraintProps, Symbol};
use takuzu::level::Level;
use takuzu::level_builder::{LevelBuilder, LevelSettings, LevelState};

fn level(rows: &[&str]) -> Level {
    let mut props = Vec::new();
    let mut id = 0;
    for row in rows {
        for ch in row.chars() {
            let s = match ch {
                'X' => Symbol::X,
                'Y' => Symbol::Y,
                _ => Symbol::Empty,
            };
            props.push(CellProps::new(id, s, vec![]));
            id += 1;
        }
    }
    let mut l = Level::default();
    l.build_with_props(props);
    l
}

const SOLVED: [&str; 6] = ["XXYXYY", "XXYXYY", "YYXYXX", "XXYXYY", "YYXYXX", "YYXYXX"];

#[test]
fn directions_between_cells() {
    let b = LevelBuilder { columns: 6 };
    assert_eq!(b.get_contraint_direction((5, 6)), ConstraintDirection::Right);
    assert_eq!(b.get_contraint_direction((6, 5)), ConstraintDirection::Left);
    assert_eq!(b.get_contraint_direction((0, 6)), ConstraintDirection::Bot);
    assert_eq!(b.get_contraint_direction((6, 0)), ConstraintDirection::Top);
    assert_eq!(b.get_contraint_direction((6, 20)), ConstraintDirection::Top);
}

#[test]
fn border_checks() {
    let b = LevelBuilder { columns: 6 };
    assert_eq!(b.get_border_free(0, -6, ConstraintDirection::Top), None);
    assert_eq!(b.get_border_free(0, -1, ConstraintDirection::Left), None);
    assert_eq!(b.get_border_free(0, 1, ConstraintDirection::Right), Some(1));
    assert_eq!(b.get_border_free(5, 6, ConstraintDirection::Right), None);
    assert_eq!(b.get_border_free(35, 41, ConstraintDirection::Bot), None);
    assert_eq!(b.get_border_free(14, 8, ConstraintDirection::Top), Some(8));
}

#[test]
fn random_pair_picking() {
    let b = LevelBuilder { columns: 6 };
    let l = level(&SOLVED);
    let ids: Vec<i32> = vec![14, 0, 7];
    // 14 is X and its right neighbour 15 is Y: no equal pair there; 0 and 1 are both X
    let dirs = vec![ConstraintDirection::Right, ConstraintDirection::Right, ConstraintDirection::Bot];
    assert_eq!(b.get_random_pair(&l, &vec![], &ids, Constraint::Equal, &dirs), Some(((0, 1), Symbol::X)));
    // (0, 1) already checked, and 7 (X) over 13 (Y) is no equal pair either
    assert_eq!(b.get_random_pair(&l, &vec![(0, 1)], &ids, Constraint::Equal, &dirs), None);
    // 12 and 13 are both Y
    assert_eq!(
        b.get_random_pair(&l, &vec![], &vec![12], Constraint::Equal, &vec![ConstraintDirection::Right]),
        Some(((12, 13), Symbol::Y))
    );
    // a differing pair: 15 (Y) and 16 (X)
    let dirs2 = vec![ConstraintDirection::Right, ConstraintDirection::Right, ConstraintDirection::Bot];
    let ids2: Vec<i32> = vec![15, 0];
    assert_eq!(
        b.get_random_pair(&l, &vec![], &ids2, Constraint::NonEqual, &dirs2[..2].to_vec()),
        Some(((15, 16), Symbol::Empty))
    );
    // a first direction that points out of the grid ends the search
    let dirs3 = vec![ConstraintDirection::Top, ConstraintDirection::Right];
    assert_eq!(b.get_random_pair(&l, &vec![], &vec![0, 14], Constraint::Equal, &dirs3), None);
    assert_eq!(b.get_random_pair(&l, &vec![], &vec![14], Constraint::Unset, &vec![ConstraintDirection::Right]), None);
}

#[test]
fn settings_place_marks_and_hide_symbols() {
    let b = LevelBuilder { columns: 6 };
    let mut l = level(&SOLVED);
    // 14 (X) and 15 (Y) differ; 0 and 1 are both X; 2 and 8 are both Y
    let picked = vec![((14, 15), Symbol::Empty), ((0, 1), Symbol::X), ((2, 8), Symbol::Y)];
    let settings = LevelSettings { columns: 6, constraints: 3, visible_symbols: 32 };
    let shuffled: Vec<i32> = vec![30, 31, 32, 33, 34, 35, 0, 1];
    b.apply_settings(&mut l, &settings, &picked, &shuffled);
    // marks
    assert_eq!(l.cells[14].constraint_right, Constraint::NonEqual);
    assert_eq!(l.cells[15].constraint_left, Constraint::NonEqual);
    assert_eq!(l.cells[0].constraint_right, Constraint::Equal);
    assert_eq!(l.cells[1].constraint_left, Constraint::Equal);
    assert_eq!(l.cells[2].constraint_bot, Constraint::Equal);
    assert_eq!(l.cells[8].constraint_top, Constraint::Equal);
    assert_eq!(
        l.cells[15].get_constraint_props(),
        vec![ConstraintProps::new(Constraint::NonEqual, ConstraintDirection::Left)]
    );
    // 36 - 32 = 4 hidden: the first cells of the three pairs, then one shuffled id
    let hidden: Vec<usize> = (0..36).filter(|&i| l.cells[i].symbol == Symbol::Empty).collect();
    assert_eq!(hidden, vec![0, 2, 14, 30]);
}

#[test]
fn settings_hide_fewer_than_pairs() {
    let b = LevelBuilder { columns: 6 };
    let mut l = level(&SOLVED);
    let picked = vec![((0, 1), Symbol::X), ((14, 15), Symbol::Empty)];
    let settings = LevelSettings { columns: 6, constraints: 2, visible_symbols: 35 };
    b.apply_settings(&mut l, &settings, &picked, &vec![5, 6]);
    let hidden: Vec<usize> = (0..36).filter(|&i| l.cells[i].symbol == Symbol::Empty).collect();
    assert_eq!(hidden, vec![0]);
}

#[test]
fn settings_hide_distinct_cells() {
    let b = LevelBuilder { columns: 6 };
    let mut l = level(&SOLVED);
    // two pairs share their first cell 0 (X): 0 and 1 are X, 0 and 6 are X
    let picked = vec![((0, 1), Symbol::X), ((0, 6), Symbol::X)];
    let settings = LevelSettings { columns: 6, constraints: 2, visible_symbols: 34 };
    // the shuffled ids name cell 0 again before 5
    b.apply_settings(&mut l, &settings, &picked, &vec![0, 5, 6]);
    let hidden: Vec<usize> = (0..36).filter(|&i| l.cells[i].symbol == Symbol::Empty).collect();
    assert_eq!(hidden, vec![0, 5]);
    assert_eq!(l.cells[0].get_constraint_props().len(), 2);
}

#[test]
fn settings_leave_exactly_the_visible_symbols() {
    let b = LevelBuilder { columns: 6 };
    for visible in [0, 1, 10, 35, 36] {
        let mut l = level(&SOLVED);
        let picked = vec![((0, 1), Symbol::X), ((2, 8), Symbol::Y), ((14, 15), Symbol::Empty)];
        let settings = LevelSettings { columns: 6, constraints: 3, visible_symbols: visible };
        let shuffled: Vec<i32> = (0..36).rev().collect();
        b.apply_settings(&mut l, &settings, &picked, &shuffled);
        let shown = l.cells.iter().filter(|c| c.symbol != Symbol::Empty).count();
        assert_eq!(shown as i32, visible);
    }
}

#[test]
fn settings_with_more_visible_than_cells_hide_nothing() {
    let b = LevelBuilder { columns: 6 };
    let mut l = level(&SOLVED);
    let settings = LevelSettings { columns: 6, constraints: 0, visible_symbols: 40 };
    let shuffled: Vec<i32> = (0..36).collect();
    b.apply_settings(&mut l, &settings, &vec![], &shuffled);
    assert!(l.cells.iter().all(|c| c.symbol != Symbol::Empty));
}

#[test]
fn preview_levels() {
    let mut b = LevelBuilder { columns: 6 };
    let d = b.build_default();
    assert_eq!(d.columns, 6);
    assert_eq!(d.cells.len(), 36);
    assert!(d.cells.iter().all(|c| c.symbol == Symbol::Empty && c.disabled));
    let mut cells = HashMap::new();
    cells.insert(3, Symbol::Y);
    cells.insert(40, Symbol::X);
    let g = b.generate_level_from_state(&LevelState { cells });
    assert_eq!(g.cells.len(), 36);
    assert_eq!(g.cells[3].symbol, Symbol::Y);
    assert_eq!(g.cells[3].id, 3);
    assert_eq!(g.cells[4].symbol, Symbol::Empty);
}

#[test]
fn solver_start_from_level() {
    let b = LevelBuilder::default();
    assert_eq!(b.columns, 6);
    let l = level(&SOLVED);
    let st = b.initial_state(&l);
    assert_eq!(st.cells.len(), 36);
    assert_eq!(st.get(2), Some(Symbol::Y));
    let mut b2 = b;
    b2.set_columns(8);
    assert_eq!(b2.get_grid_size(), 8);
}

#[test]
fn drawing_pairs_step_by_step() {
    let b = LevelBuilder { columns: 6 };
    let l = level(&SOLVED);
    let settings = LevelSettings { columns: 6, constraints: 2, visible_symbols: 30 };
    let mut picked: Vec<((i32, i32), Symbol)> = vec![];
    assert!(b.more_pairs_wanted(&settings, &picked));
    let dirs = vec![ConstraintDirection::Right, ConstraintDirection::Right];
    // cells 0 and 1 are both X
    assert!(b.draw_pair(&l, &mut picked, &vec![0, 12], Constraint::Equal, &dirs));
    assert_eq!(picked, vec![((0, 1), Symbol::X)]);
    assert!(b.more_pairs_wanted(&settings, &picked));
    // the same draw again passes the pair already taken: 12 and 13 are both Y
    assert!(b.draw_pair(&l, &mut picked, &vec![0, 12], Constraint::Equal, &dirs));
    assert_eq!(picked, vec![((0, 1), Symbol::X), ((12, 13), Symbol::Y)]);
    assert!(!b.more_pairs_wanted(&settings, &picked));
    // a draw that finds nothing new leaves the pairs as they are
    assert!(!b.draw_pair(&l, &mut picked, &vec![0, 12], Constraint::Equal, &dirs));
    assert_eq!(picked.len(), 2);
    // a differing pair carries no symbol: 14 (X) and 15 (Y)
    assert!(b.draw_pair(&l, &mut picked, &vec![14], Constraint::NonEqual, &vec![ConstraintDirection::Right]));
    assert_eq!(picked[2], ((14, 15), Symbol::Empty));
    let none = LevelSettings { columns: 6, constraints: 0, visible_symbols: 30 };
    assert!(!b.more_pairs_wanted(&none, &vec![]));
    let negative = LevelSettings { columns: 6, constraints: -3, visible_symbols: 30 };
    assert!(!b.more_pairs_wanted(&negative, &vec![]));
}

#[test]
fn counting_a_row_past_the_grid() {
    let b = LevelBuilder { columns: 6 };
    let mut cells = HashMap::new();
    cells.insert(42, Symbol::X);
    cells.insert(44, Symbol::X);
    cells.insert(43, Symbol::Y);
    let st = LevelState { cells };
    // row 7 of a 6-wide grid names ids 42 .. 47
    assert_eq!(b.count_symbol_in_row(&st, 7, &Symbol::X), 2);
    // column 7 names ids 7, 13, .., 37; none is held
    assert_eq!(b.count_symbol_in_col(&st, 7, &Symbol::X), 0);
    // column -1 names ids -1, 5, .., 29
    let mut cells = HashMap::new();
    cells.insert(5, Symbol::Y);
    cells.insert(-1, Symbol::Y);
    let st = LevelState { cells };
    assert_eq!(b.count_symbol_in_col(&st, -1, &Symbol::Y), 2);
}
