use takuzu::grid_cell::{CellProps, Constraint, ConstraintDirection, ConstraintProps, Symbol};
use takuzu::level::{floor_sqrt, Level, MIN_COLUMNS};

fn props(symbols: &str) -> Vec<CellProps> {
    symbols
        .chars()
        .enumerate()
        .map(|(i, ch)| {
            let s = match ch {
                'X' => Symbol::X,
                'Y' => Symbol::Y,
                _ => Symbol::Empty,
            };
            CellProps::new(i as i32, s, vec![])
        })
        .collect()
}

fn level(symbols: &str) -> Level {
    let mut l = Level::default();
    l.build_with_props(props(symbols));
    l
}

#[test]
fn default_level() {
    let l = Level::default();
    assert_eq!(l.get_columns(), MIN_COLUMNS);
    assert!(l.cells.is_empty());
}

#[test]
fn whole_square_root() {
    assert_eq!(floor_sqrt(0), 0);
    assert_eq!(floor_sqrt(35), 5);
    assert_eq!(floor_sqrt(36), 6);
    assert_eq!(floor_sqrt(37), 6);
    assert_eq!(floor_sqrt(i32::MAX), 46340);
}

#[test]
fn build_sets_width_and_cells() {
    let l = level(&"X".repeat(36));
    assert_eq!(l.columns, 6);
    assert_eq!(l.cells.len(), 36);
    assert_eq!(l.cell_properties.len(), 36);
    assert!(l.cells.iter().all(|c| !c.disabled));
    let mut p = Level::default();
    p.build_with_props_preview(props(&".".repeat(16)));
    assert_eq!(p.columns, 4);
    assert!(p.cells.iter().all(|c| c.disabled));
    p.enable();
    assert!(p.cells.iter().all(|c| !c.disabled && !c.focused));
}

#[test]
fn width_of_non_square_count() {
    let l = level(&".".repeat(10));
    assert_eq!(l.columns, 3);
    // ids 0..9 exist, id 9 is not among the grid's ids
    assert_eq!(l.get_ids(), (0..9).collect::<Vec<i32>>());
    assert_eq!(l.get_cells(), (0..9).collect::<Vec<i32>>());
}

#[test]
fn cells_by_id_and_from_the_back() {
    let l = level("XY..");
    assert_eq!(l.get_symbol(0), Some(Symbol::X));
    assert_eq!(l.get_symbol(1), Some(Symbol::Y));
    assert_eq!(l.get_symbol(-4), Some(Symbol::X));
    assert_eq!(l.get_symbol(-3), Some(Symbol::Y));
    assert_eq!(l.get_symbol(4), None);
    assert_eq!(l.get_symbol(-5), None);
    assert!(l.get_cell(3).is_some());
}

#[test]
fn rows_and_columns() {
    let l = level(&".".repeat(36));
    assert_eq!(l.get_row_col(0), Some((0, 0)));
    assert_eq!(l.get_row_col(14), Some((2, 2)));
    assert_eq!(l.get_row_col(35), Some((5, 5)));
    assert_eq!(l.get_row_col(-1), Some((0, -1)));
    assert_eq!(l.get_row_col(36), None);
    assert_eq!(l.get_cells_in_row(2), vec![12, 13, 14, 15, 16, 17]);
    assert_eq!(l.get_cells_in_col(4), vec![4, 10, 16, 22, 28, 34]);
    assert_eq!(l.get_cells_in_row(6), Vec::<i32>::new());
}

#[test]
fn random_cell_by_drawn_id() {
    let l = level("XYXY");
    assert_eq!(l.get_random_cell(3).map(|c| c.symbol), Some(Symbol::Y));
    assert_eq!(l.get_random_cell(0).map(|c| c.symbol), Some(Symbol::X));
}

#[test]
fn marks_on_cells() {
    let mut l = level("....");
    l.add_constraint_props_at(1, ConstraintProps::new(Constraint::Equal, ConstraintDirection::Left));
    assert_eq!(l.get_constraint_props(1), vec![ConstraintProps::new(Constraint::Equal, ConstraintDirection::Left)]);
    assert_eq!(l.cells[1].constraint_left, Constraint::Equal);
    l.hide_symbol_at(-1);
    assert_eq!(l.cells[3].symbol, Symbol::Empty);
}

#[test]
fn set_columns_changes_width_only() {
    let mut l = level(&".".repeat(36));
    l.set_columns(4);
    assert_eq!(l.get_columns(), 4);
    assert_eq!(l.cells.len(), 36);
    assert_eq!(l.get_ids().len(), 16);
    assert_eq!(l.cell_position(-1), Some(35));
}
