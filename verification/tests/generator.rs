use std::collections::HashMap;

use takuzu::grid_cell::{CellProps, Constraint, ConstraintDirection, ConstraintProps, Symbol};
use takuzu::level::Level;
use takuzu::level_builder::{LevelSettings, LevelState};
use takuzu::level_generator::{LevelBuilder, LevelGenerator, SettingsApplier};

fn level(rows: &[&str]) -> Level {
    let mut props = Vec::new();
    let mut id = 0;
    for row in rows {
        for ch in row.chars() {
            let s = match ch {
                'X' => Symbol::X,
                'Y' => Symbol::Y,
                _ => Symbol::Empty,
            };
            props.push(CellProps::new(id, s, vec![]));
            id += 1;
        }
    }
    let mut l = Level::default();
    l.build_with_props(props);
    l
}

#[test]
fn width_checks() {
    let mut b = LevelBuilder::new();
    assert_eq!(b.columns(5).err(), Some("Columns '5' must be an even number".to_string()));
    assert_eq!(b.columns(4).err(), Some("Columns '4' must be more than 6".to_string()));
    assert_eq!(b.columns(12).err(), Some("Columns '12' must be less than 10".to_string()));
    assert_eq!(b.columns(-3).err(), Some("Columns '-3' must be an even number".to_string()));
    assert_eq!(b.columns, 6);
    assert!(b.columns(8).is_ok());
    assert_eq!(b.columns, 8);
    // the builder handed back takes further settings
    b.columns(10).unwrap().constraints.push(CellProps::new(0, Symbol::X, vec![]));
    assert_eq!(b.columns, 10);
    assert_eq!(b.constraints.len(), 1);
}

#[test]
fn build_merges_props_by_id() {
    let mut b = LevelBuilder::new();
    b.constraints.push(CellProps::new(
        3,
        Symbol::X,
        vec![ConstraintProps::new(Constraint::Equal, ConstraintDirection::Right)],
    ));
    b.constraints.push(CellProps::new(
        3,
        Symbol::Y,
        vec![ConstraintProps::new(Constraint::NonEqual, ConstraintDirection::Bot)],
    ));
    let l = b.build();
    assert_eq!(l.cells.len(), 36);
    assert_eq!(l.cells[3].symbol, Symbol::X);
    assert_eq!(l.cells[3].constraint_right, Constraint::Equal);
    assert_eq!(l.cells[3].constraint_bot, Constraint::NonEqual);
    assert_eq!(l.cells[3].get_constraint_props().len(), 2);
    assert_eq!(l.cells[4].symbol, Symbol::Empty);
    assert_eq!(l.cells[4].id, 4);
}

#[test]
fn level_from_state() {
    let mut b = LevelBuilder::new();
    let mut cells = HashMap::new();
    cells.insert(0, Symbol::X);
    let l = b.generate_level_from_state(&LevelState { cells }, 4);
    assert_eq!(l.columns, 4);
    assert_eq!(l.cells[0].symbol, Symbol::X);
    assert_eq!(l.cells[15].symbol, Symbol::Empty);
    assert!(!l.cells[0].disabled);
}

#[test]
fn two_equal_neighbours() {
    let g = LevelGenerator {};
    let a = g.applier(level(&["XYX...", "Y.....", "Y.....", "......", "......", "......"]), LevelSettings::default());
    assert_eq!(a.get_two_in_row(a.level.as_ref().unwrap()), Some(((6, 12), Symbol::Y)));
    let a2 = SettingsApplier::new(level(&["XYX...", "YX....", "......", "..YY..", "......", "......"]), LevelSettings::default());
    assert_eq!(a2.get_two_in_row(a2.level.as_ref().unwrap()), Some(((20, 21), Symbol::Y)));
    let a3 = SettingsApplier::new(level(&["XY", "YX"]), LevelSettings { columns: 2, constraints: 2, visible_symbols: 0 });
    assert_eq!(a3.get_two_in_row(a3.level.as_ref().unwrap()), None);
    assert_eq!(a3.apply().cells.len(), 4);
    assert_eq!(a3.coords_to_id(1, 1, 2), 3);
}

#[test]
fn generator_hands_out_builders() {
    let g = LevelGenerator {};
    let b = g.builder();
    assert_eq!(b.columns, 6);
    assert!(b.constraints.is_empty());
}
