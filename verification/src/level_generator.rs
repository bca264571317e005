//! A second, builder-style way of making levels: a builder that checks the
//! width it is given and merges the props of cells that share an id, and
//! an applier that looks for two equal symbols side by side.

use vstd::prelude::*;
use crate::grid_cell::{CellProps, ConstraintProps, Symbol, copy_constraint_props};
use crate::level::{Level, MAX_COLUMNS, MIN_COLUMNS, cells_built_from, props_views};
use crate::level_builder::LevelState;
use crate::rules::{cell_id, lemma_cell_id_in_grid};
use crate::text::{decimal_text, push_decimal};
use vstd::string::StringExecFns;
use crate::level_builder::state_props;

pub use crate::level_builder::{DifficultyLevel, LevelParameter, LevelSettings};

verus! {

/// Hands out builders and appliers.
pub struct LevelGenerator {}

impl LevelGenerator {
    pub fn builder(&self) -> (r: LevelBuilder)
        ensures
            r.columns == MIN_COLUMNS,
            r.constraints@.len() == 0,
    {
        LevelBuilder::new()
    }

    pub fn applier(&self, level: Level, settings: LevelSettings) -> (r: SettingsApplier)
        ensures
            r.level == Some(level),
            r.settings == settings,
    {
        SettingsApplier::new(level, settings)
    }
}

/// The text that refuses the width `columns`: it must be even and within
/// `MIN_COLUMNS ..= MAX_COLUMNS`; `None` for a width that is taken.
pub open spec fn columns_refusal(columns: i32) -> Option<Seq<char>> {
    if columns % 2 != 0 {
        Some("Columns '"@ + decimal_text(columns as int) + "' must be an even number"@)
    } else if columns < MIN_COLUMNS {
        Some("Columns '"@ + decimal_text(columns as int) + "' must be more than "@ + decimal_text(MIN_COLUMNS as int))
    } else if columns > MAX_COLUMNS {
        Some("Columns '"@ + decimal_text(columns as int) + "' must be less than "@ + decimal_text(MAX_COLUMNS as int))
    } else {
        None
    }
}

/// Every even width from `MIN_COLUMNS` to `MAX_COLUMNS`, both ends
/// included, is taken, and every other width is refused.
pub proof fn lemma_widths_taken(columns: i32)
    ensures
        columns_refusal(columns) is None <==> (columns % 2 == 0 && MIN_COLUMNS <= columns <= MAX_COLUMNS),
{
}

/// The text that refuses a width that is odd, or even and outside
/// `MIN_COLUMNS ..= MAX_COLUMNS`.
fn refusal_text(columns: i32) -> (r: String)
    requires
        columns_refusal(columns) is Some,
    ensures
        r@ == columns_refusal(columns).unwrap(),
{
    let mut out = String::new();
    out.append("Columns '");
    push_decimal(&mut out, columns as i64);
    if columns % 2 != 0 {
        out.append("' must be an even number");
    } else if columns < MIN_COLUMNS {
        out.append("' must be more than ");
        push_decimal(&mut out, MIN_COLUMNS as i64);
    } else {
        out.append("' must be less than ");
        push_decimal(&mut out, MAX_COLUMNS as i64);
    }
    proof {
        assert(out@ =~= columns_refusal(columns).unwrap());
    }
    out
}

/// Builds a level of a checked width from cell props.
pub struct LevelBuilder {
    pub columns: i32,
    pub constraints: Vec<CellProps>,
}

/// The props of cell `id` once all props in `list` with that id are
/// merged: the first one's symbol and the marks of all of them in order;
/// `None` if no props have that id.
pub open spec fn merged_props(list: Seq<(i32, Symbol, Seq<ConstraintProps>)>, id: i32) -> Option<(i32, Symbol, Seq<ConstraintProps>)>
    decreases list.len(),
{
    if list.len() == 0 {
        None
    } else {
        let last = list.last();
        match merged_props(list.drop_last(), id) {
            Some(p) => if last.0 == id {
                Some((p.0, p.1, p.2 + last.2))
            } else {
                Some(p)
            },
            None => if last.0 == id {
                Some(last)
            } else {
                None
            },
        }
    }
}

/// The props of cells `0 .. columns * columns` that `build` hands the level.
pub open spec fn built_props(list: Seq<(i32, Symbol, Seq<ConstraintProps>)>, columns: int) -> Seq<(i32, Symbol, Seq<ConstraintProps>)> {
    Seq::new(
        (columns * columns) as nat,
        |i: int|
            match merged_props(list, i as i32) {
                Some(p) => p,
                None => (i as i32, Symbol::Empty, Seq::<ConstraintProps>::empty()),
            },
    )
}

impl LevelBuilder {
    pub fn new() -> (r: LevelBuilder)
        ensures
            r.columns == MIN_COLUMNS,
            r.constraints@.len() == 0,
    {
        LevelBuilder { columns: MIN_COLUMNS, constraints: Vec::new() }
    }

    /// The merged props of cell `id`: see `merged_props`.
    fn merged_for(&self, id: i32) -> (r: Option<CellProps>)
        ensures
            match r {
                Some(p) => merged_props(props_views(self.constraints@), id) == Some(p@),
                None => merged_props(props_views(self.constraints@), id) is None,
            },
    {
        let mut acc: Option<CellProps> = None;
        for k in 0..self.constraints.len()
            invariant
                match acc {
                    Some(p) => merged_props(props_views(self.constraints@.take(k as int)), id) == Some(p@),
                    None => merged_props(props_views(self.constraints@.take(k as int)), id) is None,
                },
        {
            let cell_p = &self.constraints[k];
            proof {
                assert(props_views(self.constraints@.take(k + 1)).drop_last() =~= props_views(self.constraints@.take(k as int)));
                assert(props_views(self.constraints@.take(k + 1)).last() == cell_p@);
            }
            if cell_p.id == id {
                acc = match acc {
                    Some(entry) => {
                        let mut new_entry = entry;
                        let mut extra = copy_constraint_props(&cell_p.constraint_props);
                        new_entry.constraint_props.append(&mut extra);
                        Some(new_entry)
                    },
                    None => Some(cell_p.clone()),
                };
            }
        }
        assert(self.constraints@.take(self.constraints.len() as int) =~= self.constraints@);
        acc
    }

    /// Builds a level with one cell per id `0 .. columns * columns`; the
    /// props given for an id are merged, an id without props gets an
    /// empty cell.
    pub fn build(self) -> (r: Level)
        requires
            self.columns * self.columns <= i32::MAX,
        ensures
            props_views(r.cell_properties@) == built_props(props_views(self.constraints@), self.columns as int),
            cells_built_from(r.cells@, built_props(props_views(self.constraints@), self.columns as int), false),
    {
        let mut level = Level::default();
        let ghost list = props_views(self.constraints@);
        let mut cell_props: Vec<CellProps> = Vec::new();
        assert(self.columns * self.columns >= 0) by (nonlinear_arith);
        let count = self.columns * self.columns;
        for id in 0..count
            invariant
                count == self.columns * self.columns,
                list == props_views(self.constraints@),
                cell_props@.len() == id,
                props_views(cell_props@) == built_props(list, self.columns as int).take(id as int),
        {
            let props = match self.merged_for(id) {
                // already setup properties, just use this one
                Some(props) => props,
                // generate default properties
                None => CellProps::new(id, Symbol::Empty, Vec::new()),
            };
            let ghost before = cell_props@;
            cell_props.push(props);
            assert(props_views(cell_props@) =~= built_props(list, self.columns as int).take(id + 1)) by {
                assert forall|j: int| 0 <= j < id implies cell_props@[j]@ == props_views(before)[j] by {
                    assert(cell_props@[j] == before[j]);
                }
            }
        }
        assert(built_props(list, self.columns as int).take(count as int) =~= built_props(list, self.columns as int));
        level.build_with_props(cell_props);
        level
    }

    /// A level showing the symbols of `state` on a `grid_size`-wide grid:
    /// one cell per id, no marks.
    pub fn generate_level_from_state(&mut self, state: &LevelState, grid_size: i32) -> (r: Level)
        requires
            0 <= grid_size * grid_size <= i32::MAX,
        ensures
            props_views(r.cell_properties@) == state_props(state@, grid_size as int),
            cells_built_from(r.cells@, state_props(state@, grid_size as int), false),
    {
        let mut level = Level::default();
        let mut cell_props: Vec<CellProps> = Vec::new();
        let count = grid_size * grid_size;
        for id in 0..count
            invariant
                count == grid_size * grid_size,
                cell_props@.len() == id,
                props_views(cell_props@) == state_props(state@, grid_size as int).take(id as int),
        {
            let symbol = match state.get(id) {
                Some(s) => s,
                None => Symbol::Empty,
            };
            let prop = CellProps::new(id, symbol, Vec::new());
            let ghost before = cell_props@;
            cell_props.push(prop);
            assert(props_views(cell_props@) =~= state_props(state@, grid_size as int).take(id + 1)) by {
                assert forall|j: int| 0 <= j < id implies cell_props@[j]@ == props_views(before)[j] by {
                    assert(cell_props@[j] == before[j]);
                }
            }
        }
        assert(state_props(state@, grid_size as int).take(count as int) =~= state_props(state@, grid_size as int));
        level.build_with_props(cell_props);
        level
    }

    /// Sets the width, which must be even and within `MIN_COLUMNS ..=
    /// MAX_COLUMNS`, and hands the builder back for further settings; a
    /// refused width leaves the builder as it was and is reported in the
    /// error.
    pub fn columns(&mut self, columns: i32) -> (r: Result<&mut Self, String>)
        ensures
            match columns_refusal(columns) {
                Some(text) => r matches Err(e) && e@ == text && final(self).columns == old(self).columns
                    && final(self).constraints@ == old(self).constraints@,
                None => r matches Ok(b) && b.columns == columns && b.constraints@ == old(self).constraints@
                    && *final(self) == *final(b),
            },
            r is Ok <==> (columns % 2 == 0 && MIN_COLUMNS <= columns <= MAX_COLUMNS),
    {
        if columns % 2 != 0 {
            return Err(refusal_text(columns));
        };
        if columns < MIN_COLUMNS {
            return Err(refusal_text(columns));
        };
        if columns > MAX_COLUMNS {
            return Err(refusal_text(columns));
        };
        self.columns = columns;
        Ok(self)
    }
}

/// Both cells exist, hold the same symbol, and it is not `Empty`.
pub open spec fn equal_pair(level: Level, a: int, b: int) -> bool {
    match (level.cell_at(a), level.cell_at(b)) {
        (Some(c1), Some(c2)) => c1.symbol != Symbol::Empty && c1.symbol == c2.symbol,
        _ => false,
    }
}

/// Both cells exist.
pub open spec fn pair_exists(level: Level, a: int, b: int) -> bool {
    level.cell_at(a) is Some && level.cell_at(b) is Some
}

/// Cell `row`, `col` and its right neighbour hold the same symbol.
pub open spec fn two_across(level: Level, n: int, row: int, col: int) -> bool {
    equal_pair(level, cell_id(n, row, col), cell_id(n, row, col + 1))
}

/// Cell `row`, `col` and the one below it hold the same symbol.
pub open spec fn two_down(level: Level, n: int, row: int, col: int) -> bool {
    equal_pair(level, cell_id(n, row, col), cell_id(n, row + 1, col))
}

/// No pair side by side comes before `row`, `col` in reading order.
pub open spec fn none_across_before(level: Level, n: int, row: int, col: int) -> bool {
    forall|r: int, c: int|
        0 <= r < n && 0 <= c <= n - 2 && (r < row || (r == row && c < col)) ==> !#[trigger] two_across(level, n, r, c)
}

/// No pair one above the other comes before `row`, `col`, going down each
/// column in turn.
pub open spec fn none_down_before(level: Level, n: int, row: int, col: int) -> bool {
    forall|r: int, c: int|
        0 <= c < n && 0 <= r <= n - 2 && (c < col || (c == col && r < row)) ==> !#[trigger] two_down(level, n, r, c)
}

/// The search for two equal neighbours only reads cells that exist.
pub open spec fn two_in_row_defined(level: Level) -> bool {
    let n = level.columns as int;
    &&& forall|r: int, c: int|
        0 <= r < n && 0 <= c <= n - 2 && none_across_before(level, n, r, c) ==> #[trigger] pair_exists(
            level,
            cell_id(n, r, c),
            cell_id(n, r, c + 1),
        )
    &&& forall|r: int, c: int|
        0 <= c < n && 0 <= r <= n - 2 && none_across_before(level, n, n, 0) && none_down_before(level, n, r, c)
            ==> #[trigger] pair_exists(level, cell_id(n, r, c), cell_id(n, r + 1, c))
}

proof fn lemma_across_defined(level: Level, row: int, col: int)
    requires
        two_in_row_defined(level),
        0 <= row < level.columns,
        0 <= col <= level.columns - 2,
        none_across_before(level, level.columns as int, row, col),
    ensures
        pair_exists(level, cell_id(level.columns as int, row, col), cell_id(level.columns as int, row, col + 1)),
{
}

proof fn lemma_down_defined(level: Level, row: int, col: int)
    requires
        two_in_row_defined(level),
        0 <= col < level.columns,
        0 <= row <= level.columns - 2,
        none_across_before(level, level.columns as int, level.columns as int, 0),
        none_down_before(level, level.columns as int, row, col),
    ensures
        pair_exists(level, cell_id(level.columns as int, row, col), cell_id(level.columns as int, row + 1, col)),
{
}

/// Applies level settings to a level.
pub struct SettingsApplier {
    pub level: Option<Level>,
    pub settings: LevelSettings,
}

impl SettingsApplier {
    pub fn new(level: Level, settings: LevelSettings) -> (r: SettingsApplier)
        ensures
            r.level == Some(level),
            r.settings == settings,
    {
        SettingsApplier { level: Some(level), settings }
    }

    pub fn coords_to_id(&self, row: i32, col: i32, grid_size: i32) -> (r: i32)
        requires
            i32::MIN <= row * grid_size <= i32::MAX,
            i32::MIN <= row * grid_size + col <= i32::MAX,
        ensures
            r == row * grid_size + col,
    {
        row * grid_size + col
    }
    /// The first two equal symbols side by side, reading row by row, or
    /// else the first two one above the other, reading column by column.
    pub fn get_two_in_row(&self, level: &Level) -> (r: Option<((i32, i32), Symbol)>)
        requires
            0 <= level.columns * level.columns <= i32::MAX,
            two_in_row_defined(*level),
        ensures
            ({
                let n = level.columns as int;
                match r {
                    Some(((a, b), s)) => {
                        ||| exists|row: int, col: int|
                            0 <= row < n && 0 <= col <= n - 2 && a == cell_id(n, row, col) && b == cell_id(n, row, col + 1)
                                && #[trigger] two_across(*level, n, row, col) && none_across_before(*level, n, row, col)
                                && level.cell_at(a as int).unwrap().symbol == s
                        ||| none_across_before(*level, n, n, 0) && exists|row: int, col: int|
                            0 <= col < n && 0 <= row <= n - 2 && a == cell_id(n, row, col) && b == cell_id(n, row + 1, col)
                                && #[trigger] two_down(*level, n, row, col) && none_down_before(*level, n, row, col)
                                && level.cell_at(a as int).unwrap().symbol == s
                    },
                    None => none_across_before(*level, n, n, 0) && none_down_before(*level, n, 0, n),
                }
            }),
    {
        let grid_size = level.get_columns();
        let ghost n = grid_size as int;
        let ghost lv = *level;

        // Check rows
        let mut row: i32 = 0;
        while row < grid_size
            invariant
                n == grid_size,
                grid_size == level.columns,
                lv == *level,
                0 <= grid_size * grid_size <= i32::MAX,
                two_in_row_defined(lv),
                0 <= row,
                grid_size > 0 ==> row <= grid_size,
                none_across_before(lv, n, row as int, 0),
            decreases grid_size - row,
        {
            let mut col: i32 = 0;
            while col <= grid_size - 2
                invariant
                    n == grid_size,
                    grid_size == level.columns,
                    lv == *level,
                    0 <= grid_size * grid_size <= i32::MAX,
                    two_in_row_defined(lv),
                    0 <= row < grid_size,
                    0 <= col <= grid_size,
                    none_across_before(lv, n, row as int, col as int),
                decreases grid_size - col,
            {
                proof {
                    lemma_cell_id_in_grid(n, row as int, col as int);
                    lemma_cell_id_in_grid(n, row as int, col + 1);
                    assert(0 <= row * grid_size <= row * grid_size + col);
                }
                let id1 = self.coords_to_id(row, col, grid_size);
                let id2 = self.coords_to_id(row, col + 1, grid_size);
                proof {
                    lemma_across_defined(lv, row as int, col as int);
                }
                let s1 = level.get_cell(id1).unwrap().get_symbol();
                let s2 = level.get_cell(id2).unwrap().get_symbol();
                if s1 != Symbol::Empty && s1 == s2 {
                    assert(two_across(lv, n, row as int, col as int));
                    assert(id1 == cell_id(n, row as int, col as int) && id2 == cell_id(n, row as int, col + 1));
                    return Some(((id1, id2), s1));
                }
                col += 1;
            }
            row += 1;
            assert(none_across_before(lv, n, row as int, 0));
        }
        assert(none_across_before(lv, n, n, 0));

        // Check columns
        let mut col: i32 = 0;
        while col < grid_size
            invariant
                n == grid_size,
                grid_size == level.columns,
                lv == *level,
                0 <= grid_size * grid_size <= i32::MAX,
                two_in_row_defined(lv),
                0 <= col,
                grid_size > 0 ==> col <= grid_size,
                none_across_before(lv, n, n, 0),
                none_down_before(lv, n, 0, col as int),
            decreases grid_size - col,
        {
            let mut row: i32 = 0;
            while row <= grid_size - 2
                invariant
                    n == grid_size,
                    grid_size == level.columns,
                    lv == *level,
                    0 <= grid_size * grid_size <= i32::MAX,
                    two_in_row_defined(lv),
                    0 <= col < grid_size,
                    0 <= row <= grid_size,
                    none_across_before(lv, n, n, 0),
                    none_down_before(lv, n, row as int, col as int),
                decreases grid_size - row,
            {
                proof {
                    lemma_cell_id_in_grid(n, row as int, col as int);
                    lemma_cell_id_in_grid(n, row + 1, col as int);
                    assert(0 <= row * grid_size <= (row + 1) * grid_size) by (nonlinear_arith)
                        requires
                            0 <= row,
                            0 < grid_size,
                    ;
                }
                let id1 = self.coords_to_id(row, col, grid_size);
                let id2 = self.coords_to_id(row + 1, col, grid_size);
                proof {
                    lemma_down_defined(lv, row as int, col as int);
                }
                let s1 = level.get_cell(id1).unwrap().get_symbol();
                let s2 = level.get_cell(id2).unwrap().get_symbol();
                if s1 != Symbol::Empty && s1 == s2 {
                    assert(two_down(lv, n, row as int, col as int));
                    assert(id1 == cell_id(n, row as int, col as int) && id2 == cell_id(n, row + 1, col as int));
                    return Some(((id1, id2), s1));
                }
                row += 1;
            }
            col += 1;
            assert(none_down_before(lv, n, 0, col as int));
        }
        None
    }

    /// The level the settings are for. Looks for two equal symbols side by
    /// side once for every mark the settings ask for; nothing is changed.
    pub fn apply(&self) -> (r: &Level)
        requires
            self.level is Some,
            self.settings.constraints > 0 ==> {
                let l = self.level.unwrap();
                0 <= l.columns * l.columns <= i32::MAX && two_in_row_defined(l)
            },
        ensures
            *r == self.level.unwrap(),
    {
        let level = self.level.as_ref().unwrap();
        let mut k: i32 = 0;
        while k < self.settings.constraints
            invariant
                0 <= k,
                self.level == Some(*level),
                self.settings.constraints > 0 ==> 0 <= level.columns * level.columns <= i32::MAX
                    && two_in_row_defined(*level),
            decreases self.settings.constraints - k,
        {
            let _maybe_ids_and_symbol = self.get_two_in_row(level);
            k += 1;
        }
        level
    }
}

} // verus!
