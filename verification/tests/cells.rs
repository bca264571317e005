use takuzu::grid_cell::{
    CellProps, Constraint, ConstraintDirection, ConstraintProps, GridCell, Symbol, PATH_TO_EQUAL_A_IMAGE,
    PATH_TO_EQUAL_B_IMAGE, PATH_TO_NON_EQUAL_A_IMAGE, PATH_TO_NON_EQUAL_B_IMAGE, PATH_TO_X_IMAGE, PATH_TO_Y_IMAGE,
};

fn cp(c: Constraint, d: ConstraintDirection) -> ConstraintProps {
    ConstraintProps::new(c, d)
}

#[test]
fn default_cell_is_blank() {
    let cell = GridCell::default();
    assert_eq!(cell.get_symbol(), Symbol::Empty);
    assert_eq!(cell.id, 0);
    assert!(!cell.invalid && !cell.disabled && !cell.focused);
    assert_eq!(cell.constraint_top, Constraint::Unset);
}

#[test]
fn setup_applies_props() {
    let mut cell = GridCell::default();
    let props = CellProps::new(
        7,
        Symbol::Y,
        vec![
            cp(Constraint::Equal, ConstraintDirection::Top),
            cp(Constraint::NonEqual, ConstraintDirection::Left),
            cp(Constraint::NonEqual, ConstraintDirection::Top),
            cp(Constraint::Equal, ConstraintDirection::Unset),
        ],
    );
    cell.setup(props);
    assert_eq!(cell.id, 7);
    assert_eq!(cell.get_id(), 7);
    assert_eq!(cell.symbol, Symbol::Y);
    // the last mark for a side wins
    assert_eq!(cell.constraint_top, Constraint::NonEqual);
    assert_eq!(cell.constraint_left, Constraint::NonEqual);
    assert_eq!(cell.constraint_right, Constraint::Unset);
    assert_eq!(cell.constraint_bot, Constraint::Unset);
    assert_eq!(cell.get_constraint_props().len(), 4);
}

#[test]
fn add_constraint_props_appends_and_applies() {
    let mut cell = GridCell::default();
    cell.setup(CellProps::new(3, Symbol::X, vec![cp(Constraint::Equal, ConstraintDirection::Right)]));
    cell.add_constraint_props(cp(Constraint::NonEqual, ConstraintDirection::Bot));
    assert_eq!(cell.constraint_right, Constraint::Equal);
    assert_eq!(cell.constraint_bot, Constraint::NonEqual);
    assert_eq!(
        cell.get_constraint_props(),
        vec![cp(Constraint::Equal, ConstraintDirection::Right), cp(Constraint::NonEqual, ConstraintDirection::Bot)]
    );
    assert_eq!(cell.props.id, 3);
}

#[test]
fn set_constraint_touches_one_side() {
    let mut cell = GridCell::default();
    cell.set_constraint(cp(Constraint::Equal, ConstraintDirection::Left));
    assert_eq!(cell.constraint_left, Constraint::Equal);
    cell.set_constraint(cp(Constraint::NonEqual, ConstraintDirection::Unset));
    assert_eq!(cell.constraint_top, Constraint::Unset);
    assert_eq!(cell.constraint_left, Constraint::Equal);
}

#[test]
fn clicking_cycles_symbols() {
    let mut cell = GridCell::default();
    cell.switch_to_next_symbol();
    assert_eq!(cell.symbol, Symbol::X);
    cell.switch_to_next_symbol();
    assert_eq!(cell.symbol, Symbol::Y);
    cell.switch_to_next_symbol();
    assert_eq!(cell.symbol, Symbol::Empty);
    assert_eq!(Symbol::Y.next(), Symbol::Empty);
}

#[test]
fn flags_and_switch() {
    let mut cell = GridCell::default();
    cell.set_disabled(true, true);
    assert!(cell.disabled && cell.focused);
    cell.set_invalid_rust(true);
    assert!(cell.invalid);
    cell.switch_to(Symbol::Y);
    assert_eq!(cell.symbol, Symbol::Y);
}

#[test]
fn texture_paths() {
    assert_eq!(Symbol::Empty.texture_path(), None);
    assert_eq!(Symbol::X.texture_path(), Some(PATH_TO_X_IMAGE));
    assert_eq!(Symbol::Y.texture_path(), Some(PATH_TO_Y_IMAGE));
    assert_eq!(Constraint::Equal.texture_path(ConstraintDirection::Top), Some(PATH_TO_EQUAL_A_IMAGE));
    assert_eq!(Constraint::Equal.texture_path(ConstraintDirection::Left), Some(PATH_TO_EQUAL_B_IMAGE));
    assert_eq!(Constraint::NonEqual.texture_path(ConstraintDirection::Right), Some(PATH_TO_NON_EQUAL_A_IMAGE));
    assert_eq!(Constraint::NonEqual.texture_path(ConstraintDirection::Bot), Some(PATH_TO_NON_EQUAL_B_IMAGE));
    assert_eq!(Constraint::Unset.texture_path(ConstraintDirection::Bot), None);
}

#[test]
fn defaults_of_enums() {
    assert_eq!(Symbol::default(), Symbol::Empty);
    assert_eq!(Constraint::default(), Constraint::Unset);
    assert_eq!(ConstraintDirection::default(), ConstraintDirection::Unset);
    let d = ConstraintProps::default();
    assert_eq!(d.constraint, Constraint::Unset);
    let props = CellProps::new(1, Symbol::X, vec![]);
    let copy = props.clone();
    assert_eq!(copy.id, 1);
    assert_eq!(copy.symbol, Symbol::X);
}
