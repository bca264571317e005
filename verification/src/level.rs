use vstd::prelude::*;
use crate::grid_cell::{CellProps, Constraint, ConstraintDirection, ConstraintProps, GridCell, Symbol, side_after};

verus! {

pub const MIN_COLUMNS: i32 = 6;
pub const MAX_COLUMNS: i32 = 10;

/// Rust's `/` on integers: the quotient rounded toward zero.
pub open spec fn trunc_div(a: int, b: int) -> int {
    if a >= 0 { a / b } else { -((-a) / b) }
}

/// Rust's `%` on integers: the remainder with the sign of `a`.
pub open spec fn trunc_rem(a: int, b: int) -> int {
    if a >= 0 { a % b } else { -((-a) % b) }
}

/// Rust's quotient and remainder of two `i32` values fit in an `i32`,
/// unless the division is `i32::MIN / -1`.
pub proof fn lemma_trunc_bounds(a: int, b: int)
    requires
        i32::MIN <= a <= i32::MAX,
        i32::MIN <= b <= i32::MAX,
        b != 0,
        !(a == i32::MIN && b == -1),
    ensures
        i32::MIN <= trunc_div(a, b) <= i32::MAX,
        i32::MIN <= trunc_rem(a, b) <= i32::MAX,
{
    if a >= 0 {
        if b > 0 {
            assert(0 <= a / b <= a) by (nonlinear_arith)
                requires
                    a >= 0,
                    b > 0,
            ;
        } else {
            assert(-a <= a / b <= 0) by (nonlinear_arith)
                requires
                    a >= 0,
                    b < 0,
            ;
        }
    } else {
        if b > 0 {
            assert(0 <= (-a) / b <= -a) by (nonlinear_arith)
                requires
                    -a > 0,
                    b > 0,
            ;
        } else {
            assert((-a) / b <= 0) by (nonlinear_arith)
                requires
                    -a > 0,
                    b < 0,
            ;
            assert(-((-a) / b) <= i32::MAX) by (nonlinear_arith)
                requires
                    -a > 0,
                    -a <= 0x8000_0000,
                    b < 0,
                    !(-a == 0x8000_0000 && b == -1),
            ;
        }
    }
}

/// The position among `len` children that index `id` names: counted from
/// the front when `id` is not negative, from the back when it is.
pub open spec fn child_index(id: int, len: int) -> Option<int> {
    if 0 <= id < len {
        Some(id)
    } else if -len <= id < 0 {
        Some(len + id)
    } else {
        None
    }
}

/// The largest `r` with `r * r <= len`.
pub open spec fn is_floor_sqrt(r: int, len: int) -> bool {
    0 <= r && r * r <= len < (r + 1) * (r + 1)
}

/// What each of the props holds.
pub open spec fn props_views(v: Seq<CellProps>) -> Seq<(i32, Symbol, Seq<ConstraintProps>)> {
    v.map_values(|p: CellProps| p@)
}

/// Copies of the props in `props`.
pub fn copy_cell_props(props: &Vec<CellProps>) -> (r: Vec<CellProps>)
    ensures
        props_views(r@) == props_views(props@),
{
    let mut r: Vec<CellProps> = Vec::new();
    for i in 0..props.len()
        invariant
            r@.len() == i,
            props_views(r@) == props_views(props@.take(i as int)),
    {
        let ghost before = r@;
        r.push(props[i].clone());
        assert forall|j: int| 0 <= j < i implies r@[j]@ == props@[j]@ by {
            assert(props_views(before)[j] == props_views(props@.take(i as int))[j]);
        }
        assert(props_views(r@) =~= props_views(props@.take(i + 1)));
    }
    assert(props@.take(props.len() as int) =~= props@);
    r
}

/// `cells` are new cells, each set up from the props at its position
/// and taking clicks unless `disabled`.
pub open spec fn cells_built_from(cells: Seq<GridCell>, props: Seq<(i32, Symbol, Seq<ConstraintProps>)>, disabled: bool) -> bool {
    &&& cells.len() == props.len()
    &&& forall|i: int| 0 <= i < props.len() ==> {
        let c = #[trigger] cells[i];
        &&& c.props@ == props[i]
        &&& c.id == props[i].0
        &&& c.symbol == props[i].1
        &&& c.constraint_top == side_after(Constraint::Unset, props[i].2, ConstraintDirection::Top)
        &&& c.constraint_right == side_after(Constraint::Unset, props[i].2, ConstraintDirection::Right)
        &&& c.constraint_bot == side_after(Constraint::Unset, props[i].2, ConstraintDirection::Bot)
        &&& c.constraint_left == side_after(Constraint::Unset, props[i].2, ConstraintDirection::Left)
        &&& !c.invalid
        &&& c.disabled == disabled
        &&& !c.focused
    }
}

/// New cells set up from `props`, in order, taking clicks or not.
fn fresh_cells(props: &Vec<CellProps>, disabled: bool) -> (r: Vec<GridCell>)
    ensures
        cells_built_from(r@, props_views(props@), disabled),
{
    let mut cells: Vec<GridCell> = Vec::new();
    for i in 0..props.len()
        invariant
            cells@.len() == i,
            cells_built_from(cells@, props_views(props@.take(i as int)), disabled),
    {
        let mut cell = GridCell::default();
        cell.setup(props[i].clone());
        if disabled {
            cell.set_disabled(true, false);
        }
        cells.push(cell);
        assert(props_views(props@.take(i + 1)) =~= props_views(props@.take(i as int)).push(props@[i as int]@));
    }
    assert(props@.take(props.len() as int) =~= props@);
    cells
}

/// A square grid of cells, `columns` wide; the cells are kept in the order
/// of their ids.
pub struct Level {
    pub columns: i32,
    pub cell_properties: Vec<CellProps>,
    pub cells: Vec<GridCell>,
}

impl Default for Level {
    fn default() -> (r: Self)
        ensures
            r.columns == MIN_COLUMNS,
            r.cell_properties@.len() == 0,
            r.cells@.len() == 0,
    {
        Level { columns: MIN_COLUMNS, cell_properties: Vec::new(), cells: Vec::new() }
    }
}

/// The largest `r` with `r * r <= len`.
pub fn floor_sqrt(len: i32) -> (r: i32)
    requires
        0 <= len,
    ensures
        is_floor_sqrt(r as int, len as int),
{
    let mut r: i64 = 0;
    loop
        invariant
            0 <= r <= 46340,
            r * r <= len,
            len <= i32::MAX,
        ensures
            is_floor_sqrt(r as int, len as int),
        decreases len - r,
    {
        let next = r + 1;
        assert(next * next <= 46341 * 46341) by (nonlinear_arith)
            requires
                0 < next <= 46341,
        ;
        if next * next > len as i64 {
            break;
        }
        assert(next <= next * next) by (nonlinear_arith)
            requires
                next >= 1,
        ;
        assert(next <= 46340) by (nonlinear_arith)
            requires
                next * next <= len,
                len <= i32::MAX,
                next >= 1,
        ;
        r = next;
    }
    r as i32
}

impl Level {
    /// The cell that index `id` names, if any.
    pub open spec fn cell_at(&self, id: int) -> Option<GridCell> {
        match child_index(id, self.cells@.len() as int) {
            Some(i) => Some(self.cells@[i]),
            None => None,
        }
    }

    /// The ids `0 .. columns * columns` fit in an `i32`.
    pub open spec fn ids_fit(&self) -> bool {
        self.columns * self.columns <= i32::MAX
    }

    /// The number of ids the level has: `columns * columns`, none when that is not positive.
    pub open spec fn id_count(&self) -> int {
        if self.columns * self.columns > 0 { self.columns * self.columns } else { 0 }
    }

    /// The ids of the cells that exist: the ids below both the number of
    /// ids and the number of cells.
    pub open spec fn cell_ids(&self) -> Seq<i32> {
        Seq::new(
            if self.id_count() < self.cells@.len() { self.id_count() as nat } else { self.cells@.len() },
            |i: int| i as i32,
        )
    }

    /// The row and column of cell `id`, counted from the top left.
    pub open spec fn row_col(&self, id: int) -> (int, int) {
        (trunc_div(id, self.columns as int), trunc_rem(id, self.columns as int))
    }

    /// The cells are new cells set up from the props at their positions.
    pub open spec fn cells_from_props(&self, props: Seq<(i32, Symbol, Seq<ConstraintProps>)>, disabled: bool) -> bool {
        cells_built_from(self.cells@, props, disabled)
    }

    /// The index of the cell that `id` names, if any.
    pub fn cell_position(&self, id: i32) -> (r: Option<usize>)
        ensures
            r matches Some(i) ==> child_index(id as int, self.cells@.len() as int) == Some(i as int),
            r is None ==> child_index(id as int, self.cells@.len() as int) is None,
    {
        let len = self.cells.len();
        if id >= 0 {
            if (id as usize) < len {
                return Some(id as usize);
            }
        } else {
            let back = (-(id as i64)) as usize;
            if back <= len {
                return Some(len - back);
            }
        }
        None
    }

    pub fn get_columns(&self) -> (r: i32)
        ensures
            r == self.columns,
    {
        self.columns
    }

    pub fn set_columns(&mut self, columns: i32)
        ensures
            final(self).columns == columns,
            final(self).cells@ == old(self).cells@,
            final(self).cell_properties@ == old(self).cell_properties@,
    {
        self.columns = columns;
    }

    /// The cell that `id` names: the cells are counted from the front for
    /// an `id` that is not negative and from the back for a negative one.
    pub fn get_cell(&self, id: i32) -> (r: Option<&GridCell>)
        ensures
            r matches Some(c) ==> self.cell_at(id as int) == Some(*c),
            r is None ==> self.cell_at(id as int) is None,
    {
        match self.cell_position(id) {
            Some(i) => Some(&self.cells[i]),
            None => None,
        }
    }

    /// The ids `0 .. columns * columns`.
    pub fn get_ids(&self) -> (r: Vec<i32>)
        requires
            self.ids_fit(),
        ensures
            r@ == Seq::new(self.id_count() as nat, |i: int| i as i32),
    {
        let mut ids: Vec<i32> = Vec::new();
        assert(self.columns * self.columns >= 0) by (nonlinear_arith);
        let count = self.columns * self.columns;
        let mut i: i32 = 0;
        while i < count
            invariant
                count == self.columns * self.columns,
                0 <= i,
                count > 0 ==> i <= count,
                count <= 0 ==> i == 0,
                ids@ == Seq::new(i as nat, |j: int| j as i32),
            decreases count - i,
        {
            ids.push(i);
            i += 1;
            assert(ids@ =~= Seq::new(i as nat, |j: int| j as i32));
        }
        assert(ids@ =~= Seq::new(self.id_count() as nat, |j: int| j as i32));
        ids
    }

    /// The ids of the cells that exist, in id order. (Cells are named by
    /// their id; `get_cell` hands out the cell itself.)
    pub fn get_cells(&self) -> (r: Vec<i32>)
        requires
            self.ids_fit(),
        ensures
            r@ == self.cell_ids(),
    {
        let ids = self.get_ids();
        let mut cells: Vec<i32> = Vec::new();
        for k in 0..ids.len()
            invariant
                self.ids_fit(),
                ids@ == Seq::new(self.id_count() as nat, |i: int| i as i32),
                cells@ == Seq::new(if k < self.cells@.len() { k as nat } else { self.cells@.len() }, |i: int| i as i32),
        {
            let id = ids[k];
            if self.get_cell(id).is_some() {
                cells.push(id);
            }
            assert(cells@ =~= Seq::new(if k + 1 < self.cells@.len() { (k + 1) as nat } else { self.cells@.len() }, |i: int| i as i32));
        }
        assert(cells@ =~= self.cell_ids());
        cells
    }
    /// The ids of the existing cells in row `row`.
    pub open spec fn row_ids(&self, row: int) -> Seq<i32> {
        self.cell_ids().filter(self.in_row(row))
    }

    /// Whether a cell id lies in row `row`.
    pub open spec fn in_row(&self, row: int) -> spec_fn(i32) -> bool {
        |id: i32| self.row_col(id as int).0 == row
    }

    /// Whether a cell id lies in column `col`.
    pub open spec fn in_col(&self, col: int) -> spec_fn(i32) -> bool {
        |id: i32| self.row_col(id as int).1 == col
    }

    /// The ids of the existing cells in column `col`.
    pub open spec fn col_ids(&self, col: int) -> Seq<i32> {
        self.cell_ids().filter(self.in_col(col))
    }

    /// The ids of the existing cells in row `row`, in id order.
    pub fn get_cells_in_row(&self, row: i32) -> (r: Vec<i32>)
        requires
            self.ids_fit(),
        ensures
            r@ == self.row_ids(row as int),
    {
        let ids = self.get_cells();
        let ghost pred = self.in_row(row as int);
        let mut cells: Vec<i32> = Vec::new();
        for k in 0..ids.len()
            invariant
                self.ids_fit(),
                ids@ == self.cell_ids(),
                pred == self.in_row(row as int),
                cells@ == ids@.take(k as int).filter(pred),
        {
            proof {
                reveal_with_fuel(Seq::<_>::filter, 1);
            }
            let id = ids[k];
            assert(self.columns != 0) by (nonlinear_arith)
                requires
                    self.columns * self.columns > 0 || ids@.len() == 0,
                    k < ids@.len(),
            {
            }
            assert(self.cell_at(id as int) is Some);
            let ghost before = cells@;
            if let Some((r, _)) = self.get_row_col(id) {
                assert(r as int == self.row_col(id as int).0);
                assert(pred(id) == (self.row_col(id as int).0 == row as int));
                if r == row {
                    cells.push(id);
                }
            }
            proof {
                let t = ids@.take(k + 1);
                assert(t.drop_last() =~= ids@.take(k as int));
                assert(t.last() == id);
                assert(t.filter(pred) == if pred(id) { before.push(id) } else { before });
            }
        }
        assert(ids@.take(ids.len() as int) =~= ids@);
        cells
    }

    /// The ids of the existing cells in column `col`, in id order.
    pub fn get_cells_in_col(&self, col: i32) -> (r: Vec<i32>)
        requires
            self.ids_fit(),
        ensures
            r@ == self.col_ids(col as int),
    {
        let ids = self.get_cells();
        let ghost pred = self.in_col(col as int);
        let mut cells: Vec<i32> = Vec::new();
        for k in 0..ids.len()
            invariant
                self.ids_fit(),
                ids@ == self.cell_ids(),
                pred == self.in_col(col as int),
                cells@ == ids@.take(k as int).filter(pred),
        {
            proof {
                reveal_with_fuel(Seq::<_>::filter, 1);
            }
            let id = ids[k];
            assert(self.columns != 0) by (nonlinear_arith)
                requires
                    self.columns * self.columns > 0 || ids@.len() == 0,
                    k < ids@.len(),
            {
            }
            assert(self.cell_at(id as int) is Some);
            let ghost before = cells@;
            if let Some((_, c)) = self.get_row_col(id) {
                assert(c as int == self.row_col(id as int).1);
                assert(pred(id) == (self.row_col(id as int).1 == col as int));
                if c == col {
                    cells.push(id);
                }
            }
            proof {
                let t = ids@.take(k + 1);
                assert(t.drop_last() =~= ids@.take(k as int));
                assert(t.last() == id);
                assert(t.filter(pred) == if pred(id) { before.push(id) } else { before });
            }
        }
        assert(ids@.take(ids.len() as int) =~= ids@);
        cells
    }

    /// The cell named by `random_id`, a number drawn from `0 ..= ids - 1`.
    pub fn get_random_cell(&self, random_id: i64) -> (r: Option<&GridCell>)
        requires
            self.ids_fit(),
            self.id_count() >= 1,
            0 <= random_id <= self.id_count() - 1,
        ensures
            r matches Some(c) ==> self.cell_at(random_id as int) == Some(*c),
            r is None ==> self.cell_at(random_id as int) is None,
    {
        self.get_cell(random_id as i32)
    }

    /// The symbol of the cell that `id` names.
    pub fn get_symbol(&self, id: i32) -> (r: Option<Symbol>)
        ensures
            r == (match self.cell_at(id as int) {
                Some(c) => Some(c.symbol),
                None => None,
            }),
    {
        match self.get_cell(id) {
            Some(cell) => Some(cell.get_symbol()),
            None => None,
        }
    }

    /// The row and column of cell `id`, starting with row 0, column 0 in the
    /// top left; `None` when no cell has that id.
    pub fn get_row_col(&self, id: i32) -> (r: Option<(i32, i32)>)
        requires
            self.cell_at(id as int) is Some ==> self.columns != 0 && !(id == i32::MIN && self.columns == -1),
        ensures
            r is Some <==> self.cell_at(id as int) is Some,
            r matches Some(rc) ==> rc.0 as int == self.row_col(id as int).0 && rc.1 as int == self.row_col(id as int).1,
    {
        match self.get_cell(id) {
            Some(_) => {
                proof {
                    lemma_trunc_bounds(id as int, self.columns as int);
                }
                let row = id / self.columns;
                let col = id % self.columns;
                Some((row, col))
            },
            None => None,
        }
    }

    /// The constraint marks of the cell that `id` names.
    pub fn get_constraint_props(&self, id: i32) -> (r: Vec<ConstraintProps>)
        requires
            self.cell_at(id as int) is Some,
        ensures
            r@ == self.cell_at(id as int).unwrap().props.constraint_props@,
    {
        self.get_cell(id).unwrap().get_constraint_props()
    }
    /// Replaces the cells with new ones set up from `cell_props`, which stay
    /// disabled; the grid gets as many columns as the whole square root of
    /// the number of props.
    pub fn build_with_props_preview(&mut self, cell_props: Vec<CellProps>)
        requires
            cell_props@.len() <= i32::MAX,
        ensures
            props_views(final(self).cell_properties@) == props_views(cell_props@),
            is_floor_sqrt(final(self).columns as int, cell_props@.len() as int),
            final(self).cells_from_props(props_views(cell_props@), true),
    {
        self.cell_properties = copy_cell_props(&cell_props);
        let amount = cell_props.len() as i32;
        let columns = floor_sqrt(amount);
        self.set_columns(columns);
        self.cells = fresh_cells(&cell_props, true);
    }

    /// Replaces the cells with new ones set up from `cell_props`; the grid
    /// gets as many columns as the whole square root of the number of props.
    pub fn update_cell_props(&mut self, cell_props: Vec<CellProps>)
        requires
            cell_props@.len() <= i32::MAX,
        ensures
            props_views(final(self).cell_properties@) == props_views(cell_props@),
            is_floor_sqrt(final(self).columns as int, cell_props@.len() as int),
            final(self).cells_from_props(props_views(cell_props@), false),
    {
        self.cell_properties = copy_cell_props(&cell_props);
        let amount = cell_props.len() as i32;
        let columns = floor_sqrt(amount);
        self.set_columns(columns);
        self.cells = fresh_cells(&cell_props, false);
    }

    /// Builds the level's cells from `cell_props`.
    pub fn build_with_props(&mut self, cell_props: Vec<CellProps>)
        requires
            cell_props@.len() <= i32::MAX,
        ensures
            props_views(final(self).cell_properties@) == props_views(cell_props@),
            is_floor_sqrt(final(self).columns as int, cell_props@.len() as int),
            final(self).cells_from_props(props_views(cell_props@), false),
    {
        self.update_cell_props(cell_props);
    }

    /// Lets every existing cell take clicks, none of them focused.
    pub fn enable(&mut self)
        requires
            old(self).ids_fit(),
        ensures
            final(self).columns == old(self).columns,
            final(self).cell_properties@ == old(self).cell_properties@,
            final(self).cells@.len() == old(self).cells@.len(),
            forall|i: int| 0 <= i < old(self).cells@.len() ==> #[trigger] final(self).cells@[i] == if i
                < old(self).cell_ids().len() {
                GridCell { disabled: false, focused: false, ..old(self).cells@[i] }
            } else {
                old(self).cells@[i]
            },
    {
        let ids = self.get_cells();
        let ghost start = *self;
        for k in 0..ids.len()
            invariant
                ids@ == start.cell_ids(),
                ids@.len() <= start.cells@.len(),
                ids@.len() <= start.id_count(),
                start.ids_fit(),
                self.columns == start.columns,
                self.cell_properties@ == start.cell_properties@,
                self.cells@.len() == start.cells@.len(),
                forall|i: int| 0 <= i < start.cells@.len() ==> #[trigger] self.cells@[i] == if i < k {
                    GridCell { disabled: false, focused: false, ..start.cells@[i] }
                } else {
                    start.cells@[i]
                },
        {
            let id = ids[k];
            assert(id as int == k as int);
            self.cells[id as usize].set_disabled(false, false);
        }
    }
    /// Adds the mark `cp` to the list of the cell that `id` names.
    pub fn add_constraint_props_at(&mut self, id: i32, cp: ConstraintProps)
        requires
            old(self).cell_at(id as int) is Some,
        ensures
            final(self).columns == old(self).columns,
            final(self).cell_properties@ == old(self).cell_properties@,
            final(self).cells@.len() == old(self).cells@.len(),
            ({
                let i = child_index(id as int, old(self).cells@.len() as int).unwrap();
                let o = old(self).cells@[i];
                let c = final(self).cells@[i];
                &&& c.props@ == (o.props.id, o.props.symbol, o.props.constraint_props@.push(cp))
                &&& c.sides_after(&o, o.props.constraint_props@.push(cp))
                &&& c.symbol == o.symbol
                &&& c.invalid == o.invalid
                &&& c.id == o.id
                &&& c.disabled == o.disabled
                &&& c.focused == o.focused
                &&& forall|j: int| 0 <= j < old(self).cells@.len() && j != i ==> final(self).cells@[j] == old(self).cells@[j]
            }),
    {
        let i = self.cell_position(id).unwrap();
        self.cells[i].add_constraint_props(cp);
    }

    /// Clears the symbol of the cell that `id` names.
    pub fn hide_symbol_at(&mut self, id: i32)
        requires
            old(self).cell_at(id as int) is Some,
        ensures
            final(self).columns == old(self).columns,
            final(self).cell_properties@ == old(self).cell_properties@,
            final(self).cells@ == old(self).cells@.update(
                child_index(id as int, old(self).cells@.len() as int).unwrap(),
                GridCell {
                    symbol: Symbol::Empty,
                    ..old(self).cells@[child_index(id as int, old(self).cells@.len() as int).unwrap()]
                },
            ),
    {
        let i = self.cell_position(id).unwrap();
        self.cells[i].switch_to(Symbol::Empty);
    }
}


/// The row and column of a cell id count from the top left: the id is the
/// row times the width plus the column, and the column lies within the
/// width.
pub proof fn lemma_row_col_of_id(level: Level, id: int)
    requires
        0 <= id,
        level.columns > 0,
    ensures
        level.row_col(id).0 * level.columns + level.row_col(id).1 == id,
        0 <= level.row_col(id).1 < level.columns,
        0 <= level.row_col(id).0,
{
    let n = level.columns as int;
    assert(id == n * (id / n) + id % n && 0 <= id / n) by (nonlinear_arith)
        requires
            0 < n,
            0 <= id,
    ;
    assert(level.row_col(id).0 == id / n && level.row_col(id).1 == id % n);
    assert((id / n) * n == n * (id / n)) by (nonlinear_arith);
}

} // verus!
