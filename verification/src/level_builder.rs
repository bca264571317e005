use vstd::prelude::*;
use std::collections::HashMap;
use crate::grid_cell::{Constraint, ConstraintDirection, ConstraintProps, GridCell, Symbol};
use crate::level::{Level, child_index, trunc_div, trunc_rem, cells_built_from, is_floor_sqrt, props_views, MIN_COLUMNS};
use crate::grid_cell::CellProps;
use crate::grid_cell::{marked_like, lemma_marked_step};
use crate::rules::{
    all_filled, propagation, lemma_propagation, blank_count, full_sweep, propagated, sweep, sweeps, lemma_blank_count_fill,
    lemma_blank_count_bounds, chosen_cell, chosen_cell_from, cell_pressure, both_hold, cell_id, has_three, impossible, is_blank, line_overfull, pressure,
    three_across, three_down, valid_solution, row_balanced, col_balanced, forced_symbol, would_make_three_across, would_make_three_down, half, placement_ok, valid_symbols, would_make_three, count_col, count_col_prefix, count_row, count_row_prefix, lemma_cell_id_in_grid,
    lemma_count_col_prefix_bounds, lemma_count_row_prefix_bounds, lemma_id_coords, sym,
};
use crate::rules::{
    extends, holds_grid, solves, lemma_agreeing_grids_alike, lemma_propagation_keeps_filled, lemma_blank_cell_gets_chosen, lemma_chosen_cell_from,
    lemma_impossible_has_no_solution, lemma_propagation_ends, lemma_propagation_keeps_cells,
    lemma_propagation_keeps_solutions, lemma_ruled_out_not_in_solution,
};

verus! {

broadcast use vstd::std_specs::hash::group_hash_axioms;

/// The symbols of a level while the solver fills it in, keyed by cell id.
pub struct LevelState {
    pub cells: HashMap<i32, Symbol>,
}

impl View for LevelState {
    type V = Map<i32, Symbol>;

    open spec fn view(&self) -> Map<i32, Symbol> {
        self.cells@
    }
}

impl Clone for LevelState {
    fn clone(&self) -> (r: Self)
        ensures
            r@ == self@,
    {
        LevelState { cells: self.cells.clone() }
    }
}

impl LevelState {
    /// How many cells hold a symbol; with the number of cells, what the
    /// progress of a search is measured by.
    pub fn filled_count(&self) -> (r: usize)
        ensures
            r == self@.dom().filter(|k: i32| self@[k] != Symbol::Empty).len(),
            r <= self.cells.len(),
    {
        let mut count: usize = 0;
        let ghost mut seen: Seq<i32> = Seq::empty();
        for k in it: self.cells.keys()
            invariant
                it.seq().unref().to_set() == self@.dom(),
                it.seq().unref().no_duplicates(),
                seen == it.seq().unref().take(it.index() as int),
                count == seen.filter(|k: i32| self@[k] != Symbol::Empty).len(),
                count <= it.index(),
            ensures
                seen == it.seq().unref(),
                it.seq().unref().to_set() == self@.dom(),
                it.seq().unref().no_duplicates(),
                count == seen.filter(|k: i32| self@[k] != Symbol::Empty).len(),
                count <= seen.len(),
        {
            proof {
                reveal_with_fuel(Seq::<_>::filter, 1);
            }
            let ghost before = seen;
            proof {
                seen = seen.push(*k);
                assert(seen.drop_last() =~= before);
                it.seq().unref().unique_seq_to_set();
                assert(it.seq().unref().len() == self.cells.len());
            }
            if self.get(*k) != Some(Symbol::Empty) {
                count += 1;
            }
        }
        proof {
            let p = |k: i32| self@[k] != Symbol::Empty;
            lemma_filter_set_len(seen, p);
            seen.unique_seq_to_set();
        }
        count
    }

    /// The symbol stored for `id`, if any.
    pub fn get(&self, id: i32) -> (r: Option<Symbol>)
        ensures
            r == sym(self@, id as int),
    {
        match self.cells.get(&id) {
            Some(s) => Some(*s),
            None => None,
        }
    }
}

/// An entry of the solver's backtracking stack: a grid, the cell last
/// guessed in it and the symbols still to try there.
pub struct SolverFrame {
    pub state: LevelState,
    pub last_cell: Option<i32>,
    pub remaining_options: Vec<Symbol>,
}

impl View for SolverFrame {
    type V = (Map<i32, Symbol>, Option<i32>, Seq<Symbol>);

    open spec fn view(&self) -> (Map<i32, Symbol>, Option<i32>, Seq<Symbol>) {
        (self.state@, self.last_cell, self.remaining_options@)
    }
}

/// The solver's backtracking stack; its last entry is explored next.
pub struct Solver {
    pub stack: Vec<SolverFrame>,
}

impl View for Solver {
    type V = Seq<(Map<i32, Symbol>, Option<i32>, Seq<Symbol>)>;

    open spec fn view(&self) -> Seq<(Map<i32, Symbol>, Option<i32>, Seq<Symbol>)> {
        self.stack@.map_values(|f: SolverFrame| f@)
    }
}

/// Every entry with symbols left to try names the cell they are for.
pub open spec fn frames_ok(frames: Seq<(Map<i32, Symbol>, Option<i32>, Seq<Symbol>)>) -> bool {
    forall|i: int| 0 <= i < frames.len() && (#[trigger] frames[i]).2.len() > 0 ==> frames[i].1 is Some
}

impl Solver {
    /// A search that starts from `state`.
    pub fn new(state: LevelState) -> (r: Solver)
        ensures
            r@ == seq![(state@, Option::<i32>::None, Seq::<Symbol>::empty())],
            frames_ok(r@),
    {
        let mut stack = Vec::new();
        stack.push(SolverFrame { state, last_cell: None, remaining_options: Vec::new() });
        let r = Solver { stack };
        assert(r@ =~= seq![(state@, Option::<i32>::None, Seq::<Symbol>::empty())]);
        r
    }

    /// Whether the search has entries left to explore.
    pub fn is_searching(&self) -> (r: bool)
        ensures
            r == (self@.len() > 0),
    {
        self.stack.len() > 0
    }
}

/// What one step of the search came to.
pub enum SolveStep {
    /// The search goes on.
    Searching,
    /// A finished, valid grid was found.
    Solved(LevelState),
    /// Nothing is left to explore.
    Exhausted,
}

/// What one step of a search with a time limit came to.
pub enum TimedStep {
    /// The time ran out before the step; nothing was explored.
    TimedOut,
    /// The step was taken.
    Went(SolveStep),
}

/// The stack after guessing `symbol` for `cell` in `cur`: the entry that
/// keeps the other symbols to try (if any), then the grid with the guess.
pub open spec fn push_guess(
    rest: Seq<(Map<i32, Symbol>, Option<i32>, Seq<Symbol>)>,
    cur: Map<i32, Symbol>,
    cell: i32,
    symbol: Symbol,
    remaining: Seq<Symbol>,
) -> Seq<(Map<i32, Symbol>, Option<i32>, Seq<Symbol>)> {
    let kept = if remaining.len() > 0 { rest.push((cur, Some(cell), remaining)) } else { rest };
    kept.push((cur.insert(cell, symbol), None, Seq::empty()))
}

/// The stack after one step of the search from a non-empty stack, and the
/// grid found, if the step found one. The last entry is taken off and its
/// grid propagated. An impossible grid, or a filled one, ends that branch
/// (a filled, valid grid is the answer). Otherwise the next symbol left
/// in the entry is guessed, or, with none left, the chosen cell's valid
/// symbols are tried, the last one first.
pub open spec fn after_step(
    frames: Seq<(Map<i32, Symbol>, Option<i32>, Seq<Symbol>)>,
    n: int,
    order: Seq<i32>,
) -> (Seq<(Map<i32, Symbol>, Option<i32>, Seq<Symbol>)>, Option<Map<i32, Symbol>>) {
    let top = frames.last();
    let rest = frames.drop_last();
    let cur = propagation(top.0, n);
    if impossible(cur, n) {
        (rest, None)
    } else if all_filled(cur) {
        (rest, if valid_solution(cur, n) { Some(cur) } else { None })
    } else if top.2.len() > 0 {
        (push_guess(rest, cur, top.1.unwrap(), top.2.last(), top.2.drop_last()), None)
    } else {
        match chosen_cell(cur, n, order) {
            None => (rest, None),
            Some(c) => {
                let options = valid_symbols(cur, n, c as int);
                if options.len() == 0 {
                    (rest, None)
                } else {
                    (push_guess(rest, cur, c, options.last(), options.drop_last()), None)
                }
            },
        }
    }
}

/// Names the row or the column in which a move broke a rule.
#[derive(Clone, Copy, Debug, PartialEq, Eq, Structural)]
pub enum RowColumn {
    Row(i32),
    Col(i32),
}

/// The direction from cell `id1` to cell `id2` in an `n`-wide grid:
/// right for the next id, left for the one before, down for the id a row
/// further, up otherwise.
pub open spec fn direction_between(id1: int, id2: int, n: int) -> ConstraintDirection {
    if id2 - id1 == 1 {
        ConstraintDirection::Right
    } else if id2 - id1 == -1 {
        ConstraintDirection::Left
    } else if id2 - id1 == n {
        ConstraintDirection::Bot
    } else {
        ConstraintDirection::Top
    }
}

/// A mark on cell `id` facing `d` would point out of an `n`-wide grid.
pub open spec fn points_outside(id: int, n: int, d: ConstraintDirection) -> bool {
    let row = trunc_div(id, n);
    let col = trunc_rem(id, n);
    let last = n - 1;
    ||| row == 0 && d == ConstraintDirection::Top
    ||| row == last && d == ConstraintDirection::Bot
    ||| col == 0 && d == ConstraintDirection::Left
    ||| col == last && d == ConstraintDirection::Right
}

/// The neighbour of cell `id` in direction `d` of an `n`-wide grid.
pub open spec fn neighbour(id: int, n: int, d: ConstraintDirection) -> Option<int> {
    match d {
        ConstraintDirection::Top => Some(id - n),
        ConstraintDirection::Right => Some(id + 1),
        ConstraintDirection::Bot => Some(id + n),
        ConstraintDirection::Left => Some(id - 1),
        ConstraintDirection::Unset => None,
    }
}

/// The pair of neighbours chosen for a new mark, trying the cells `ids[i..]`
/// in order with the direction drawn for each: the first pair whose
/// symbols suit the `constraint` (equal, or different, with a symbol in the
/// first cell) and that is not in `checked`. A direction of no side, a
/// neighbour outside the grid, or a cell that does not exist ends the
/// search with nothing. The symbol returned is the shared one for an equal
/// pair and `Empty` for a different pair.
pub open spec fn pair_from(
    n: int,
    level: Level,
    checked: Seq<(i32, i32)>,
    ids: Seq<i32>,
    constraint: Constraint,
    directions: Seq<ConstraintDirection>,
    i: int,
) -> Option<((i32, i32), Symbol)>
    decreases ids.len() - i,
{
    if i < 0 || i >= ids.len() {
        None
    } else {
        let id1 = ids[i];
        let d = directions[i];
        match neighbour(id1 as int, n, d) {
            None => None,
            Some(t) => if points_outside(id1 as int, n, d) {
                None
            } else {
                match (level.cell_at(id1 as int), level.cell_at(t)) {
                    (Some(c1), Some(c2)) => {
                        let s1 = c1.symbol;
                        let s2 = c2.symbol;
                        let pair = (id1, t as i32);
                        if constraint == Constraint::Equal && s1 != Symbol::Empty && s1 == s2 && !checked.contains(pair) {
                            Some((pair, s1))
                        } else if constraint == Constraint::NonEqual && s1 != Symbol::Empty && s1 != s2
                            && !checked.contains(pair) {
                            Some((pair, Symbol::Empty))
                        } else {
                            pair_from(n, level, checked, ids, constraint, directions, i + 1)
                        }
                    },
                    _ => None,
                }
            },
        }
    }
}

/// The cell pairs of the drawn pairs `picked`.
pub open spec fn picked_pairs(picked: Seq<((i32, i32), Symbol)>) -> Seq<(i32, i32)> {
    picked.map_values(|p: ((i32, i32), Symbol)| p.0)
}

/// The drawn pair `p` is two neighbouring cells of the `n`-wide grid that
/// exist in `level`, each mark of the pair facing the other cell; the first
/// cell holds a symbol; the pair's mark asks for equal symbols exactly when
/// the two cells hold the same one, and an equal pair carries that symbol.
pub open spec fn pair_drawn_well(level: Level, n: int, p: ((i32, i32), Symbol)) -> bool {
    let a = p.0.0;
    let b = p.0.1;
    let m1 = first_mark(p.0, p.1, n);
    &&& 0 <= a < n * n
    &&& 0 <= b < n * n
    &&& neighbour(a as int, n, m1.constraint_direction) == Some(b as int)
    &&& neighbour(b as int, n, mirror_mark(m1).constraint_direction) == Some(a as int)
    &&& mirror_mark(m1).constraint == m1.constraint
    &&& level.cell_at(a as int) is Some
    &&& level.cell_at(b as int) is Some
    &&& level.cell_at(a as int).unwrap().symbol != Symbol::Empty
    &&& (m1.constraint == Constraint::Equal <==> level.cell_at(a as int).unwrap().symbol == level.cell_at(
        b as int,
    ).unwrap().symbol)
    &&& (p.1 != Symbol::Empty ==> p.1 == level.cell_at(a as int).unwrap().symbol)
}

/// Every pair of `picked` is drawn well, and no two pairs are the same
/// cells in the same order.
pub open spec fn drawn_well(level: Level, n: int, picked: Seq<((i32, i32), Symbol)>) -> bool {
    &&& forall|k: int| 0 <= k < picked.len() ==> #[trigger] pair_drawn_well(level, n, picked[k])
    &&& forall|j: int, k: int| 0 <= j < k < picked.len() ==> (#[trigger] picked[j]).0 != (#[trigger] picked[k]).0
}

/// How hard a level is meant to be.
#[derive(Clone, Copy, Debug, PartialEq, Eq, Structural, Hash)]
pub enum DifficultyLevel {
    Easy,
    Normal,
    Hard,
    Nightmare,
}

impl Default for DifficultyLevel {
    fn default() -> (r: Self)
        ensures
            r == DifficultyLevel::Normal,
    {
        DifficultyLevel::Normal
    }
}

/// A quantity of a level that the difficulty decides.
#[derive(Clone, Copy, Debug, PartialEq, Eq, Structural, Hash)]
pub enum LevelParameter {
    Columns,
    Constraints,
    VisibleSymbols,
}

/// What a level of a given difficulty gets: its width, how many marks it
/// shows and how many symbols stay visible.
#[derive(Clone, Copy, Debug, PartialEq, Eq, Structural)]
pub struct LevelSettings {
    pub columns: i32,
    pub constraints: i32,
    pub visible_symbols: i32,
}

impl Default for LevelSettings {
    fn default() -> (r: Self)
        ensures
            r.columns == 0,
            r.constraints == 0,
            r.visible_symbols == 0,
    {
        LevelSettings { columns: 0, constraints: 0, visible_symbols: 0 }
    }
}

/// The mark a chosen pair puts on its first cell, facing the second: equal
/// for a pair that shares a symbol, different for a pair given `Empty`.
pub open spec fn first_mark(pair: (i32, i32), symbol: Symbol, n: int) -> ConstraintProps {
    ConstraintProps {
        constraint: if symbol == Symbol::Empty { Constraint::NonEqual } else { Constraint::Equal },
        constraint_direction: direction_between(pair.0 as int, pair.1 as int, n),
    }
}

/// The mark the second cell of a pair gets: the same kind, facing back.
pub open spec fn mirror_mark(cp: ConstraintProps) -> ConstraintProps {
    let c = if cp.constraint == Constraint::Equal { Constraint::Equal } else { Constraint::NonEqual };
    match cp.constraint_direction {
        ConstraintDirection::Bot => ConstraintProps { constraint: c, constraint_direction: ConstraintDirection::Top },
        ConstraintDirection::Top => ConstraintProps { constraint: c, constraint_direction: ConstraintDirection::Bot },
        ConstraintDirection::Right => ConstraintProps { constraint: c, constraint_direction: ConstraintDirection::Left },
        ConstraintDirection::Left => ConstraintProps { constraint: c, constraint_direction: ConstraintDirection::Right },
        ConstraintDirection::Unset => ConstraintProps {
            constraint: Constraint::Unset,
            constraint_direction: ConstraintDirection::Unset,
        },
    }
}

/// The marks the pairs in `picked` add to the cell at index `i` of a level
/// with `len` cells, in the order they are added.
pub open spec fn marks_added(picked: Seq<((i32, i32), Symbol)>, n: int, len: int, i: int) -> Seq<ConstraintProps>
    decreases picked.len(),
{
    if picked.len() == 0 {
        Seq::empty()
    } else {
        let (pair, symbol) = picked.last();
        let m1 = first_mark(pair, symbol, n);
        marks_added(picked.drop_last(), n, len, i) + (if child_index(pair.0 as int, len) == Some(i) {
            seq![m1]
        } else {
            Seq::empty()
        }) + (if child_index(pair.1 as int, len) == Some(i) {
            seq![mirror_mark(m1)]
        } else {
            Seq::empty()
        })
    }
}

/// The first ids of the pairs in `picked`.
pub open spec fn first_ids(picked: Seq<((i32, i32), Symbol)>) -> Seq<i32> {
    picked.map_values(|p: ((i32, i32), Symbol)| p.0.0)
}

/// The symbols of `cells`, in order.
pub open spec fn cell_symbols(cells: Seq<GridCell>) -> Seq<Symbol> {
    cells.map_values(|c: GridCell| c.symbol)
}

/// How many of `syms` are symbols, not `Empty`.
pub open spec fn shown_count(syms: Seq<Symbol>) -> int
    decreases syms.len(),
{
    if syms.len() == 0 {
        0
    } else {
        shown_count(syms.drop_last()) + if syms.last() != Symbol::Empty { 1int } else { 0int }
    }
}

/// The symbols `syms` of a level's cells after hiding, walking the
/// candidate ids `cands[j..]`: while `left` symbols are still to be hidden,
/// a candidate that names a cell showing a symbol hides it; a candidate
/// that names no cell, or a cell already blank, is passed.
pub open spec fn hide_walk(syms: Seq<Symbol>, cands: Seq<i32>, j: int, left: int) -> Seq<Symbol>
    decreases cands.len() - j,
{
    if j < 0 || j >= cands.len() || left <= 0 {
        syms
    } else {
        match child_index(cands[j] as int, syms.len() as int) {
            Some(i) => if syms[i] != Symbol::Empty {
                hide_walk(syms.update(i, Symbol::Empty), cands, j + 1, left - 1)
            } else {
                hide_walk(syms, cands, j + 1, left)
            },
            None => hide_walk(syms, cands, j + 1, left),
        }
    }
}

/// The symbols of `level`'s cells once the settings are applied: the
/// number of ids minus `visible_symbols` are hidden, taking first the
/// first cells of the pairs `picked`, then the cells of `shuffled`, and
/// passing cells already blank.
pub open spec fn symbols_after_settings(
    level: Level,
    settings: LevelSettings,
    picked: Seq<((i32, i32), Symbol)>,
    shuffled: Seq<i32>,
) -> Seq<Symbol> {
    hide_walk(cell_symbols(level.cells@), first_ids(picked) + shuffled, 0, level.id_count() - settings.visible_symbols)
}

/// The marks that the drawn pairs add include, on the first cell of each
/// pair, its mark, and on the second cell the mirrored mark.
proof fn lemma_marks_added_holds(picked: Seq<((i32, i32), Symbol)>, n: int, len: int, k: int)
    requires
        0 <= k < picked.len(),
        child_index(picked[k].0.0 as int, len) is Some,
        child_index(picked[k].0.1 as int, len) is Some,
    ensures
        marks_added(picked, n, len, child_index(picked[k].0.0 as int, len).unwrap()).contains(
            first_mark(picked[k].0, picked[k].1, n),
        ),
        marks_added(picked, n, len, child_index(picked[k].0.1 as int, len).unwrap()).contains(
            mirror_mark(first_mark(picked[k].0, picked[k].1, n)),
        ),
    decreases picked.len(),
{
    let p = picked[k];
    let m1 = first_mark(p.0, p.1, n);
    let ia = child_index(p.0.0 as int, len).unwrap();
    let ib = child_index(p.0.1 as int, len).unwrap();
    let rest = picked.drop_last();
    let last = picked.last();
    let lm = first_mark(last.0, last.1, n);
    let xa = if child_index(last.0.0 as int, len) == Some(ia) { seq![lm] } else { Seq::<ConstraintProps>::empty() };
    let ya = if child_index(last.0.1 as int, len) == Some(ia) { seq![mirror_mark(lm)] } else { Seq::<ConstraintProps>::empty() };
    let xb = if child_index(last.0.0 as int, len) == Some(ib) { seq![lm] } else { Seq::<ConstraintProps>::empty() };
    let yb = if child_index(last.0.1 as int, len) == Some(ib) { seq![mirror_mark(lm)] } else { Seq::<ConstraintProps>::empty() };
    let aa = marks_added(rest, n, len, ia);
    let ab = marks_added(rest, n, len, ib);
    assert(marks_added(picked, n, len, ia) == aa + xa + ya);
    assert(marks_added(picked, n, len, ib) == ab + xb + yb);
    if k == picked.len() - 1 {
        assert((aa + xa + ya)[aa.len() as int] == m1);
        assert((ab + xb + yb)[(ab.len() + xb.len()) as int] == mirror_mark(m1));
    } else {
        assert(rest[k] == p);
        lemma_marks_added_holds(rest, n, len, k);
        let ja = choose|j: int| 0 <= j < aa.len() && aa[j] == m1;
        let jb = choose|j: int| 0 <= j < ab.len() && ab[j] == mirror_mark(m1);
        assert((aa + xa + ya)[ja] == m1);
        assert((ab + xb + yb)[jb] == mirror_mark(m1));
    }
}

/// A level whose every cell shows a symbol shows as many as it has cells.
proof fn lemma_all_shown(syms: Seq<Symbol>)
    requires
        forall|i: int| 0 <= i < syms.len() ==> syms[i] != Symbol::Empty,
    ensures
        shown_count(syms) == syms.len(),
    decreases syms.len(),
{
    if syms.len() > 0 {
        lemma_all_shown(syms.drop_last());
    }
}

/// The settings leave exactly `visible_symbols` symbols shown on a level
/// with one cell per id, every cell showing a symbol, when `shuffled` names
/// every cell and `0 <= visible_symbols <=` the number of ids.
pub proof fn lemma_settings_leave_visible_symbols(
    level: Level,
    settings: LevelSettings,
    picked: Seq<((i32, i32), Symbol)>,
    shuffled: Seq<i32>,
)
    requires
        level.cells@.len() == level.id_count(),
        forall|i: int| 0 <= i < level.cells@.len() ==> (#[trigger] level.cells@[i]).symbol != Symbol::Empty,
        forall|i: int|
            #![trigger level.cells@[i]]
            0 <= i < level.cells@.len() ==> exists|k: int|
                0 <= k < shuffled.len() && #[trigger] child_index(shuffled[k] as int, level.cells@.len() as int) == Some(i),
        0 <= settings.visible_symbols <= level.id_count(),
    ensures
        shown_count(symbols_after_settings(level, settings, picked, shuffled)) == settings.visible_symbols,
{
    let syms = cell_symbols(level.cells@);
    let cands = first_ids(picked) + shuffled;
    let f = first_ids(picked).len();
    lemma_all_shown(syms);
    assert forall|i: int| 0 <= i < syms.len() && syms[i] != Symbol::Empty implies exists|k: int|
        0 <= k < cands.len() && #[trigger] child_index(cands[k] as int, syms.len() as int) == Some(i) by {
        let k = choose|k: int| 0 <= k < shuffled.len() && #[trigger] child_index(shuffled[k] as int, level.cells@.len() as int) == Some(i);
        assert(cands[f + k] == shuffled[k]);
    }
    lemma_hide_walk_count(syms, cands, 0, level.id_count() - settings.visible_symbols);
}

/// Hiding one more symbol leaves one symbol fewer.
proof fn lemma_shown_count_hide(syms: Seq<Symbol>, i: int)
    requires
        0 <= i < syms.len(),
        syms[i] != Symbol::Empty,
    ensures
        shown_count(syms.update(i, Symbol::Empty)) == shown_count(syms) - 1,
    decreases syms.len(),
{
    let t = syms.update(i, Symbol::Empty);
    if i == syms.len() - 1 {
        assert(t.drop_last() =~= syms.drop_last());
    } else {
        assert(t.drop_last() =~= syms.drop_last().update(i, Symbol::Empty));
        lemma_shown_count_hide(syms.drop_last(), i);
    }
}

/// Some symbol is shown where the count of shown symbols is positive.
proof fn lemma_shown_somewhere(syms: Seq<Symbol>)
    requires
        shown_count(syms) > 0,
    ensures
        exists|i: int| 0 <= i < syms.len() && syms[i] != Symbol::Empty,
    decreases syms.len(),
{
    if syms.last() == Symbol::Empty {
        lemma_shown_somewhere(syms.drop_last());
        let i = choose|i: int| 0 <= i < syms.drop_last().len() && syms.drop_last()[i] != Symbol::Empty;
        assert(syms[i] != Symbol::Empty);
    } else {
        assert(syms[syms.len() - 1] != Symbol::Empty);
    }
}

/// Hiding leaves exactly the wanted number of symbols: when `left` is no
/// more than the symbols shown and every cell still showing one is named
/// by a candidate of `cands[j..]`, the walk hides `left` of them.
pub proof fn lemma_hide_walk_count(syms: Seq<Symbol>, cands: Seq<i32>, j: int, left: int)
    requires
        0 <= j,
        0 <= left <= shown_count(syms),
        forall|i: int|
            0 <= i < syms.len() && syms[i] != Symbol::Empty ==> exists|k: int|
                j <= k < cands.len() && #[trigger] child_index(cands[k] as int, syms.len() as int) == Some(i),
    ensures
        shown_count(hide_walk(syms, cands, j, left)) == shown_count(syms) - left,
    decreases cands.len() - j,
{
    let len = syms.len() as int;
    if left == 0 {
    } else if j >= cands.len() {
        lemma_shown_somewhere(syms);
        let i = choose|i: int| 0 <= i < syms.len() && syms[i] != Symbol::Empty;
        let k = choose|k: int| j <= k < cands.len() && #[trigger] child_index(cands[k] as int, len) == Some(i);
    } else {
        match child_index(cands[j] as int, len) {
            Some(c) => {
                if syms[c] != Symbol::Empty {
                    let t = syms.update(c, Symbol::Empty);
                    lemma_shown_count_hide(syms, c);
                    assert forall|i: int| 0 <= i < t.len() && t[i] != Symbol::Empty implies exists|k: int|
                        j + 1 <= k < cands.len() && #[trigger] child_index(cands[k] as int, t.len() as int) == Some(i) by {
                        let k = choose|k: int| j <= k < cands.len() && #[trigger] child_index(cands[k] as int, len) == Some(i);
                        assert(k != j);
                    }
                    lemma_hide_walk_count(t, cands, j + 1, left - 1);
                } else {
                    assert forall|i: int| 0 <= i < syms.len() && syms[i] != Symbol::Empty implies exists|k: int|
                        j + 1 <= k < cands.len() && #[trigger] child_index(cands[k] as int, len) == Some(i) by {
                        let k = choose|k: int| j <= k < cands.len() && #[trigger] child_index(cands[k] as int, len) == Some(i);
                        assert(k != j);
                    }
                    lemma_hide_walk_count(syms, cands, j + 1, left);
                }
            },
            None => {
                assert forall|i: int| 0 <= i < syms.len() && syms[i] != Symbol::Empty implies exists|k: int|
                    j + 1 <= k < cands.len() && #[trigger] child_index(cands[k] as int, len) == Some(i) by {
                    let k = choose|k: int| j <= k < cands.len() && #[trigger] child_index(cands[k] as int, len) == Some(i);
                    assert(k != j);
                }
                lemma_hide_walk_count(syms, cands, j + 1, left);
            },
        }
    }
}

/// The props of the cells `0 .. n * n` of a level showing the symbols of
/// `m`: `Empty` where `m` holds none, and no marks.
pub open spec fn state_props(m: Map<i32, Symbol>, n: int) -> Seq<(i32, Symbol, Seq<ConstraintProps>)> {
    Seq::new(
        (n * n) as nat,
        |i: int|
            (i as i32, match sym(m, i) {
                Some(s) => s,
                None => Symbol::Empty,
            }, Seq::<ConstraintProps>::empty()),
    )
}

/// The id -> symbol table of the existing cells `ids` of `level`, keyed by
/// each cell's own id field; a later cell replaces an earlier one.
pub open spec fn level_symbols(level: Level, ids: Seq<i32>) -> Map<i32, Symbol>
    decreases ids.len(),
{
    if ids.len() == 0 {
        Map::empty()
    } else {
        let c = level.cell_at(ids.last() as int).unwrap();
        level_symbols(level, ids.drop_last()).insert(c.id, c.symbol)
    }
}

/// The items of a list without repeats that pass `p` are as many as the
/// members of its set that pass `p`.
pub proof fn lemma_filter_set_len(s: Seq<i32>, p: spec_fn(i32) -> bool)
    requires
        s.no_duplicates(),
    ensures
        s.filter(p).len() == s.to_set().filter(p).len(),
    decreases s.len(),
{
    reveal_with_fuel(Seq::<_>::filter, 1);
    if s.len() == 0 {
        assert(s.to_set().filter(p) =~= Set::<i32>::empty());
    } else {
        let d = s.drop_last();
        let x = s.last();
        assert(d.no_duplicates()) by {
            assert forall|i: int, j: int| 0 <= i < d.len() && 0 <= j < d.len() && i != j implies d[i] != d[j] by {
                assert(d[i] == s[i] && d[j] == s[j]);
            }
        }
        lemma_filter_set_len(d, p);
        assert(s =~= d.push(x));
        assert(s.to_set() =~= d.to_set().insert(x)) by {
            d.lemma_push_to_set_commute(x);
        }
        assert(!d.to_set().contains(x)) by {
            if d.to_set().contains(x) {
                let i = choose|i: int| 0 <= i < d.len() && d[i] == x;
                assert(s[i] == s[s.len() - 1]);
            }
        }
        if p(x) {
            assert(s.to_set().filter(p) =~= d.to_set().filter(p).insert(x));
        } else {
            assert(s.to_set().filter(p) =~= d.to_set().filter(p));
        }
    }
}

/// Builds and solves levels of a grid `columns` cells wide.
pub struct LevelBuilder {
    pub columns: i32,
}

impl Default for LevelBuilder {
    fn default() -> (r: Self)
        ensures
            r.columns == MIN_COLUMNS,
    {
        LevelBuilder { columns: MIN_COLUMNS }
    }
}

impl LevelBuilder {
    /// A usable grid width: positive, with every cell id fitting in an `i32`.
    pub open spec fn grid_ok(&self) -> bool {
        0 < self.columns && self.columns * self.columns <= i32::MAX
    }

    pub fn get_grid_size(&self) -> (r: i32)
        ensures
            r == self.columns,
    {
        self.columns
    }

    pub fn coords_to_id(&self, row: i32, col: i32) -> (r: i32)
        requires
            self.grid_ok(),
            0 <= row < self.columns,
            0 <= col < self.columns,
        ensures
            r == cell_id(self.columns as int, row as int, col as int),
            0 <= r < self.columns * self.columns,
    {
        proof {
            lemma_cell_id_in_grid(self.columns as int, row as int, col as int);
        }
        row * self.get_grid_size() + col
    }

    pub fn id_to_coords(&self, id: i32) -> (r: (i32, i32))
        requires
            self.grid_ok(),
            0 <= id < self.columns * self.columns,
        ensures
            r.0 == id / self.columns,
            r.1 == id % self.columns,
            0 <= r.0 < self.columns,
            0 <= r.1 < self.columns,
            cell_id(self.columns as int, r.0 as int, r.1 as int) == id,
    {
        let grid_size = self.get_grid_size();
        proof {
            lemma_id_coords(grid_size as int, id as int);
        }
        (id / grid_size, id % grid_size)
    }

    /// The ids `row * columns + 0 .. row * columns + columns` of the cells of
    /// row `row` fit in an `i32`.
    pub open spec fn row_fits(&self, row: int) -> bool {
        i32::MIN <= row * self.columns && row * self.columns + self.columns - 1 <= i32::MAX
    }

    /// The ids `0 * columns + col .. (columns - 1) * columns + col` of the
    /// cells of column `col` fit in an `i32`.
    pub open spec fn col_fits(&self, col: int) -> bool {
        i32::MIN <= col && (self.columns - 1) * self.columns + col <= i32::MAX
    }

    /// How many of the ids `row * columns + k`, `0 <= k < columns`, hold
    /// `symbol` in `state`.
    pub fn count_symbol_in_row(&self, state: &LevelState, row: i32, symbol: &Symbol) -> (r: i32)
        requires
            self.grid_ok(),
            self.row_fits(row as int),
        ensures
            r == count_row(state@, self.columns as int, row as int, *symbol),
            0 <= r <= self.columns,
    {
        let grid_size = self.get_grid_size();
        let base = row * grid_size;
        let mut count: i32 = 0;
        for col in 0..grid_size
            invariant
                grid_size == self.columns,
                self.grid_ok(),
                base == row * grid_size,
                self.row_fits(row as int),
                count == count_row_prefix(state@, grid_size as int, row as int, *symbol, col as nat),
        {
            proof {
                lemma_count_row_prefix_bounds(state@, grid_size as int, row as int, *symbol, col as nat);
            }
            let id = base + col;
            assert(id == cell_id(grid_size as int, row as int, col as int));
            if let Some(cell_symbol) = state.get(id) {
                if cell_symbol == *symbol {
                    count += 1;
                }
            }
        }
        proof {
            lemma_count_row_prefix_bounds(state@, grid_size as int, row as int, *symbol, grid_size as nat);
        }
        count
    }

    /// How many of the ids `k * columns + col`, `0 <= k < columns`, hold
    /// `symbol` in `state`.
    pub fn count_symbol_in_col(&self, state: &LevelState, col: i32, symbol: &Symbol) -> (r: i32)
        requires
            self.grid_ok(),
            self.col_fits(col as int),
        ensures
            r == count_col(state@, self.columns as int, col as int, *symbol),
            0 <= r <= self.columns,
    {
        let grid_size = self.get_grid_size();
        let mut count: i32 = 0;
        for row in 0..grid_size
            invariant
                grid_size == self.columns,
                self.grid_ok(),
                self.col_fits(col as int),
                count == count_col_prefix(state@, grid_size as int, col as int, *symbol, row as nat),
        {
            proof {
                lemma_count_col_prefix_bounds(state@, grid_size as int, col as int, *symbol, row as nat);
                let n = grid_size as int;
                assert(0 <= row * n <= (n - 1) * n <= n * n) by (nonlinear_arith)
                    requires
                        0 <= row < n,
                ;
            }
            let id = row * grid_size + col;
            assert(id == cell_id(grid_size as int, row as int, col as int));
            if let Some(cell_symbol) = state.get(id) {
                if cell_symbol == *symbol {
                    count += 1;
                }
            }
        }
        proof {
            lemma_count_col_prefix_bounds(state@, grid_size as int, col as int, *symbol, grid_size as nat);
        }
        count
    }

    /// Whether both cells hold `symbol`.
    fn both_hold_symbol(state: &LevelState, a: i32, b: i32, symbol: &Symbol) -> (r: bool)
        ensures
            r == both_hold(state@, a as int, b as int, *symbol),
    {
        if let (Some(s1), Some(s2)) = (state.get(a), state.get(b)) {
            s1 == *symbol && s2 == *symbol
        } else {
            false
        }
    }

    /// Whether putting `symbol` at `row`, `col` would make three equal
    /// symbols in a line.
    pub fn would_create_three_in_row(&self, state: &LevelState, row: i32, col: i32, symbol: &Symbol) -> (r: bool)
        requires
            self.grid_ok(),
            0 <= row < self.columns,
            0 <= col < self.columns,
        ensures
            r == would_make_three(state@, self.columns as int, row as int, col as int, *symbol),
    {
        let grid_size = self.get_grid_size();
        let ghost m = state@;
        let ghost n = grid_size as int;

        // Check horizontal
        // Pattern: XX? (symbol would be third)
        if col >= 2 {
            let left1 = self.coords_to_id(row, col - 1);
            let left2 = self.coords_to_id(row, col - 2);
            if Self::both_hold_symbol(state, left1, left2, symbol) {
                return true;
            }
        }
        assert(!(col >= 2 && both_hold(m, cell_id(n, row as int, col - 1), cell_id(n, row as int, col - 2), *symbol)));

        // Pattern: X?X (symbol would be middle)
        if col >= 1 && col < grid_size - 1 {
            let left = self.coords_to_id(row, col - 1);
            let right = self.coords_to_id(row, col + 1);
            if Self::both_hold_symbol(state, left, right, symbol) {
                return true;
            }
        }
        assert(!(col >= 1 && col < n - 1 && both_hold(m, cell_id(n, row as int, col - 1), cell_id(n, row as int, col + 1), *symbol)));

        // Pattern: ?XX (symbol would be first)
        if col <= grid_size - 3 {
            let right1 = self.coords_to_id(row, col + 1);
            let right2 = self.coords_to_id(row, col + 2);
            if Self::both_hold_symbol(state, right1, right2, symbol) {
                return true;
            }
        }
        assert(!(col <= n - 3 && both_hold(m, cell_id(n, row as int, col + 1), cell_id(n, row as int, col + 2), *symbol)));

        // Check vertical (same patterns)
        if row >= 2 {
            let up1 = self.coords_to_id(row - 1, col);
            let up2 = self.coords_to_id(row - 2, col);
            if Self::both_hold_symbol(state, up1, up2, symbol) {
                return true;
            }
        }
        assert(!(row >= 2 && both_hold(m, cell_id(n, row - 1, col as int), cell_id(n, row - 2, col as int), *symbol)));

        if row >= 1 && row < grid_size - 1 {
            let up = self.coords_to_id(row - 1, col);
            let down = self.coords_to_id(row + 1, col);
            if Self::both_hold_symbol(state, up, down, symbol) {
                return true;
            }
        }
        assert(!(row >= 1 && row < n - 1 && both_hold(m, cell_id(n, row - 1, col as int), cell_id(n, row + 1, col as int), *symbol)));

        if row <= grid_size - 3 {
            let down1 = self.coords_to_id(row + 1, col);
            let down2 = self.coords_to_id(row + 2, col);
            if Self::both_hold_symbol(state, down1, down2, symbol) {
                return true;
            }
        }
        assert(!(row <= n - 3 && both_hold(m, cell_id(n, row + 1, col as int), cell_id(n, row + 2, col as int), *symbol)));

        false
    }

    /// Whether `symbol` may go into cell `id` under the run-of-three and
    /// half-the-line rules.
    pub fn is_valid_placement(&self, state: &LevelState, id: i32, symbol: &Symbol) -> (r: bool)
        requires
            self.grid_ok(),
            0 <= id < self.columns * self.columns,
        ensures
            r == placement_ok(state@, self.columns as int, id as int, *symbol),
    {
        let (row, col) = self.id_to_coords(id);
        let grid_size = self.get_grid_size();

        // Check three-in-a-row constraint
        if self.would_create_three_in_row(state, row, col, symbol) {
            return false;
        }

        // Check count constraints
        proof {
            crate::rules::lemma_line_ids_fit(self.columns as int, row as int);
        }
        let row_count = self.count_symbol_in_row(state, row, symbol);
        proof {
            crate::rules::lemma_line_ids_fit(self.columns as int, col as int);
        }
        let col_count = self.count_symbol_in_col(state, col, symbol);

        if row_count >= grid_size / 2 || col_count >= grid_size / 2 {
            return false;
        }

        true
    }

    /// The symbols that may go into cell `id`: `X` and `Y` minus those that
    /// break a rule.
    pub fn get_valid_symbols(&self, state: &LevelState, id: i32) -> (r: Vec<Symbol>)
        requires
            self.grid_ok(),
            0 <= id < self.columns * self.columns,
        ensures
            r@ == valid_symbols(state@, self.columns as int, id as int),
    {
        let mut valid = Vec::new();
        if self.is_valid_placement(state, id, &Symbol::X) {
            valid.push(Symbol::X);
        }
        if self.is_valid_placement(state, id, &Symbol::Y) {
            valid.push(Symbol::Y);
        }
        assert(valid@ =~= valid_symbols(state@, self.columns as int, id as int));
        valid
    }
    /// The symbol both cells hold, if they hold the same one and it is not
    /// `Empty`.
    fn equal_pair(state: &LevelState, a: i32, b: i32) -> (r: Option<Symbol>)
        ensures
            r matches Some(s) ==> s != Symbol::Empty && both_hold(state@, a as int, b as int, s),
            r is None ==> forall|s: Symbol| s != Symbol::Empty ==> !both_hold(state@, a as int, b as int, s),
    {
        if let (Some(s1), Some(s2)) = (state.get(a), state.get(b)) {
            if s1 != Symbol::Empty && s1 == s2 {
                return Some(s1);
            }
        }
        None
    }

    /// Whether `v` holds `symbol`.
    fn holds_symbol(v: &Vec<Symbol>, symbol: Symbol) -> (r: bool)
        ensures
            r == v@.contains(symbol),
    {
        let mut i: usize = 0;
        while i < v.len()
            invariant
                i <= v.len(),
                forall|j: int| 0 <= j < i ==> v@[j] != symbol,
            decreases v.len() - i,
        {
            if v[i] == symbol {
                return true;
            }
            i += 1;
        }
        false
    }

    /// Appends `symbol` to `v`.
    fn push_symbol(v: &mut Vec<Symbol>, symbol: Symbol)
        ensures
            final(v)@ == old(v)@.push(symbol),
            forall|x: Symbol| final(v)@.contains(x) <==> (old(v)@.contains(x) || x == symbol),
    {
        v.push(symbol);
        proof {
            assert forall|x: Symbol| v@.contains(x) implies (old(v)@.contains(x) || x == symbol) by {
                let j = choose|j: int| 0 <= j < v@.len() && v@[j] == x;
                if j < old(v)@.len() {
                    assert(old(v)@[j] == x);
                }
            }
            assert forall|x: Symbol| (old(v)@.contains(x) || x == symbol) implies v@.contains(x) by {
                if x == symbol {
                    assert(v@[v@.len() - 1] == x);
                } else {
                    let j = choose|j: int| 0 <= j < old(v)@.len() && old(v)@[j] == x;
                    assert(v@[j] == x);
                }
            }
        }
    }

    /// Adds to `forbidden` the symbol both cells hold, if they hold the same
    /// one and it is not `Empty`.
    fn forbid_equal_pair(state: &LevelState, forbidden: &mut Vec<Symbol>, a: i32, b: i32)
        ensures
            forall|x: Symbol| final(forbidden)@.contains(x) <==> (old(forbidden)@.contains(x)
                || (x != Symbol::Empty && both_hold(state@, a as int, b as int, x))),
    {
        if let Some(s1) = Self::equal_pair(state, a, b) {
            Self::push_symbol(forbidden, s1);
        }
    }

    /// Adds to `forbidden` each symbol that would make a run of three in the
    /// row of `row`, `col`.
    fn forbid_runs_across(&self, state: &LevelState, forbidden: &mut Vec<Symbol>, row: i32, col: i32)
        requires
            self.grid_ok(),
            0 <= row < self.columns,
            0 <= col < self.columns,
        ensures
            forall|x: Symbol| final(forbidden)@.contains(x) <==> (old(forbidden)@.contains(x)
                || (x != Symbol::Empty && would_make_three_across(state@, self.columns as int, row as int, col as int, x))),
    {
        let grid_size = self.get_grid_size();
        // Pattern: XX? (would be third)
        if col >= 2 {
            let left1 = self.coords_to_id(row, col - 1);
            let left2 = self.coords_to_id(row, col - 2);
            Self::forbid_equal_pair(state, forbidden, left1, left2);
        }
        // Pattern: X?X (would be middle)
        if col >= 1 && col < grid_size - 1 {
            let left = self.coords_to_id(row, col - 1);
            let right = self.coords_to_id(row, col + 1);
            Self::forbid_equal_pair(state, forbidden, left, right);
        }
        // Pattern: ?XX (would be first)
        if col <= grid_size - 3 {
            let right1 = self.coords_to_id(row, col + 1);
            let right2 = self.coords_to_id(row, col + 2);
            Self::forbid_equal_pair(state, forbidden, right1, right2);
        }
    }

    /// Adds to `forbidden` each symbol that would make a run of three in the
    /// column of `row`, `col`.
    fn forbid_runs_down(&self, state: &LevelState, forbidden: &mut Vec<Symbol>, row: i32, col: i32)
        requires
            self.grid_ok(),
            0 <= row < self.columns,
            0 <= col < self.columns,
        ensures
            forall|x: Symbol| final(forbidden)@.contains(x) <==> (old(forbidden)@.contains(x)
                || (x != Symbol::Empty && would_make_three_down(state@, self.columns as int, row as int, col as int, x))),
    {
        let grid_size = self.get_grid_size();
        if row >= 2 {
            let up1 = self.coords_to_id(row - 1, col);
            let up2 = self.coords_to_id(row - 2, col);
            Self::forbid_equal_pair(state, forbidden, up1, up2);
        }
        if row >= 1 && row < grid_size - 1 {
            let up = self.coords_to_id(row - 1, col);
            let down = self.coords_to_id(row + 1, col);
            Self::forbid_equal_pair(state, forbidden, up, down);
        }
        if row <= grid_size - 3 {
            let down1 = self.coords_to_id(row + 1, col);
            let down2 = self.coords_to_id(row + 2, col);
            Self::forbid_equal_pair(state, forbidden, down1, down2);
        }
    }

    /// The symbol cell `id` must take because the other one would break a
    /// rule, or `None` when both or neither are ruled out.
    pub fn get_forced_symbol(&self, state: &LevelState, id: i32) -> (r: Option<Symbol>)
        requires
            self.grid_ok(),
            0 <= id < self.columns * self.columns,
        ensures
            r == forced_symbol(state@, self.columns as int, id as int),
    {
        let grid_size = self.get_grid_size();
        let (row, col) = self.id_to_coords(id);
        let ghost m = state@;
        let ghost n = grid_size as int;
        let mut forbidden: Vec<Symbol> = Vec::new();

        self.forbid_runs_across(state, &mut forbidden, row, col);
        self.forbid_runs_down(state, &mut forbidden, row, col);

        // Check row symbol count constraints
        proof {
            crate::rules::lemma_line_ids_fit(self.columns as int, row as int);
        }
        let row_x_count = self.count_symbol_in_row(state, row, &Symbol::X);
        let row_y_count = self.count_symbol_in_row(state, row, &Symbol::Y);
        if row_x_count >= grid_size / 2 {
            Self::push_symbol(&mut forbidden, Symbol::X);
        }
        if row_y_count >= grid_size / 2 {
            Self::push_symbol(&mut forbidden, Symbol::Y);
        }

        // Check column symbol count constraints
        proof {
            crate::rules::lemma_line_ids_fit(self.columns as int, col as int);
        }
        let col_x_count = self.count_symbol_in_col(state, col, &Symbol::X);
        let col_y_count = self.count_symbol_in_col(state, col, &Symbol::Y);
        if col_x_count >= grid_size / 2 {
            Self::push_symbol(&mut forbidden, Symbol::X);
        }
        if col_y_count >= grid_size / 2 {
            Self::push_symbol(&mut forbidden, Symbol::Y);
        }

        // Determine forced symbol
        let forbidden_x = Self::holds_symbol(&forbidden, Symbol::X);
        let forbidden_y = Self::holds_symbol(&forbidden, Symbol::Y);
        assert(forbidden_x == !placement_ok(m, n, id as int, Symbol::X));
        assert(forbidden_y == !placement_ok(m, n, id as int, Symbol::Y));

        match (forbidden_x, forbidden_y) {
            (true, false) => Some(Symbol::Y),
            (false, true) => Some(Symbol::X),
            _ => None,  // Either both forbidden (impossible) or neither (not forced)
        }
    }
    /// Whether three equal symbols start at the three given cells.
    fn same_three_cells(state: &LevelState, a: i32, b: i32, c: i32) -> (r: bool)
        ensures
            r == crate::rules::same_three(state@, a as int, b as int, c as int),
    {
        if let (Some(s1), Some(s2), Some(s3)) = (state.get(a), state.get(b), state.get(c)) {
            s1 != Symbol::Empty && s1 == s2 && s2 == s3
        } else {
            false
        }
    }

    /// Whether some row or column holds three equal symbols in a run.
    pub fn has_three_in_row(&self, state: &LevelState) -> (r: bool)
        requires
            self.columns > 0 ==> self.grid_ok(),
        ensures
            r == has_three(state@, self.columns as int),
    {
        let grid_size = self.get_grid_size();
        if grid_size <= 0 {
            // a grid without cells has no rows and no columns to check
            return false;
        }
        let ghost m = state@;
        let ghost n = grid_size as int;

        // Check rows
        for row in 0..grid_size
            invariant
                grid_size == self.columns,
                n == grid_size,
                m == state@,
                self.grid_ok(),
                forall|r: int, c: int| 0 <= r < row && 0 <= c <= n - 3 ==> !#[trigger] three_across(m, n, r, c),
        {
            let mut col: i32 = 0;
            while col <= grid_size - 3
                invariant
                    grid_size == self.columns,
                    n == grid_size,
                    m == state@,
                    self.grid_ok(),
                    0 <= row < grid_size,
                    0 <= col,
                    col <= grid_size,
                    forall|r: int, c: int| 0 <= r < row && 0 <= c <= n - 3 ==> !#[trigger] three_across(m, n, r, c),
                    forall|c: int| 0 <= c < col ==> !#[trigger] three_across(m, n, row as int, c),
                decreases grid_size - col,
            {
                let id1 = self.coords_to_id(row, col);
                let id2 = self.coords_to_id(row, col + 1);
                let id3 = self.coords_to_id(row, col + 2);
                if Self::same_three_cells(state, id1, id2, id3) {
                    assert(three_across(m, n, row as int, col as int));
                    return true;
                }
                col += 1;
            }
        }

        // Check columns
        for col in 0..grid_size
            invariant
                grid_size == self.columns,
                n == grid_size,
                m == state@,
                self.grid_ok(),
                forall|r: int, c: int| 0 <= r < n && 0 <= c <= n - 3 ==> !#[trigger] three_across(m, n, r, c),
                forall|r: int, c: int| 0 <= c < col && 0 <= r <= n - 3 ==> !#[trigger] three_down(m, n, r, c),
        {
            let mut row: i32 = 0;
            while row <= grid_size - 3
                invariant
                    grid_size == self.columns,
                    n == grid_size,
                    m == state@,
                    self.grid_ok(),
                    0 <= col < grid_size,
                    0 <= row,
                    row <= grid_size,
                    forall|r: int, c: int| 0 <= r < n && 0 <= c <= n - 3 ==> !#[trigger] three_across(m, n, r, c),
                    forall|r: int, c: int| 0 <= c < col && 0 <= r <= n - 3 ==> !#[trigger] three_down(m, n, r, c),
                    forall|r: int| 0 <= r < row ==> !#[trigger] three_down(m, n, r, col as int),
                decreases grid_size - row,
            {
                let id1 = self.coords_to_id(row, col);
                let id2 = self.coords_to_id(row + 1, col);
                let id3 = self.coords_to_id(row + 2, col);
                if Self::same_three_cells(state, id1, id2, id3) {
                    assert(three_down(m, n, row as int, col as int));
                    return true;
                }
                row += 1;
            }
        }

        false
    }

    /// Whether every cell the state holds has a symbol.
    pub fn solved(&self, state: &LevelState) -> (r: bool)
        ensures
            r == all_filled(state@),
    {
        let mut ok = true;
        let ghost mut seen: Seq<Symbol> = Seq::empty();
        for v in it: state.cells.values()
            invariant
                ok == (forall|j: int| 0 <= j < seen.len() ==> seen[j] != Symbol::Empty),
                it.seq().unref().to_set() == state@.values(),
                seen == it.seq().unref().take(it.index() as int),
            ensures
                seen == it.seq().unref(),
                it.seq().unref().to_set() == state@.values(),
                ok == (forall|j: int| 0 <= j < seen.len() ==> seen[j] != Symbol::Empty),
        {
            let ghost old_seen = seen;
            proof {
                seen = seen.push(*v);
            }
            if *v == Symbol::Empty {
                ok = false;
            }
            assert(seen[seen.len() - 1] == *v);
            assert(forall|j: int| 0 <= j < old_seen.len() ==> seen[j] == old_seen[j]);
        }
        assert forall|k: i32| state@.contains_key(k) && ok implies state@[k] != Symbol::Empty by {
            assert(state@.values().contains(state@[k]));
            assert(seen.to_set().contains(state@[k]));
        }
        assert(!ok ==> exists|k: i32| state@.contains_key(k) && state@[k] == Symbol::Empty) by {
            if !ok {
                let j = choose|j: int| 0 <= j < seen.len() && seen[j] == Symbol::Empty;
                assert(seen.to_set().contains(seen[j]));
                assert(state@.values().contains(seen[j]));
            }
        }
        ok
    }

    /// Whether the grid is a finished solution: every row and column holds
    /// half the width of `X` and of `Y`, and no run of three exists.
    pub fn validate_final_solution(&self, state: &LevelState) -> (r: bool)
        requires
            self.columns > 0 ==> self.grid_ok(),
        ensures
            r == valid_solution(state@, self.columns as int),
    {
        let grid_size = self.get_grid_size();
        if grid_size <= 0 {
            // a grid without cells has no rows and no columns to check
            return true;
        }
        let ghost m = state@;
        let ghost n = grid_size as int;
        // Check row counts
        for row in 0..grid_size
            invariant
                grid_size == self.columns,
                n == grid_size,
                m == state@,
                self.grid_ok(),
                forall|r: int| 0 <= r < row ==> #[trigger] row_balanced(m, n, r),
        {
            proof {
                crate::rules::lemma_line_ids_fit(self.columns as int, row as int);
            }
            let x_count = self.count_symbol_in_row(state, row, &Symbol::X);
            let y_count = self.count_symbol_in_row(state, row, &Symbol::Y);
            if x_count != grid_size / 2 || y_count != grid_size / 2 {
                assert(!row_balanced(m, n, row as int));
                return false;
            }
        }

        // Check column counts
        for col in 0..grid_size
            invariant
                grid_size == self.columns,
                n == grid_size,
                m == state@,
                self.grid_ok(),
                forall|r: int| 0 <= r < n ==> #[trigger] row_balanced(m, n, r),
                forall|c: int| 0 <= c < col ==> #[trigger] col_balanced(m, n, c),
        {
            proof {
                crate::rules::lemma_line_ids_fit(self.columns as int, col as int);
            }
            let x_count = self.count_symbol_in_col(state, col, &Symbol::X);
            let y_count = self.count_symbol_in_col(state, col, &Symbol::Y);
            if x_count != grid_size / 2 || y_count != grid_size / 2 {
                assert(!col_balanced(m, n, col as int));
                return false;
            }
        }

        // Check three-in-a-row
        if self.has_three_in_row(state) {
            return false;
        }

        true
    }
    /// Whether cell `id` holds no symbol.
    fn is_blank_cell(state: &LevelState, id: i32) -> (r: bool)
        ensures
            r == is_blank(state@, id as int),
    {
        match state.get(id) {
            Some(s) => s == Symbol::Empty,
            None => true,
        }
    }

    /// Whether the grid can no longer be completed: a line holds more than
    /// half the width of a symbol, a run of three exists, or a blank cell
    /// can take neither symbol.
    pub fn in_impossible_state(&self, state: &LevelState) -> (r: bool)
        requires
            self.grid_ok(),
        ensures
            r == impossible(state@, self.columns as int),
    {
        let grid_size = self.get_grid_size();
        let ghost m = state@;
        let ghost n = grid_size as int;

        // Check for too many symbols in any row/column
        for i in 0..grid_size
            invariant
                grid_size == self.columns,
                n == grid_size,
                m == state@,
                self.grid_ok(),
                forall|j: int| 0 <= j < i ==> !#[trigger] line_overfull(m, n, j),
        {
            proof {
                crate::rules::lemma_line_ids_fit(self.columns as int, i as int);
            }
            let row_x = self.count_symbol_in_row(state, i, &Symbol::X);
            let row_y = self.count_symbol_in_row(state, i, &Symbol::Y);
            let col_x = self.count_symbol_in_col(state, i, &Symbol::X);
            let col_y = self.count_symbol_in_col(state, i, &Symbol::Y);

            if row_x > grid_size / 2 || row_y > grid_size / 2 || col_x > grid_size / 2 || col_y
                > grid_size / 2 {
                assert(line_overfull(m, n, i as int));
                return true;
            }
        }

        // Check for three-in-a-row violations
        if self.has_three_in_row(state) {
            return true;
        }

        // Check for empty cells with no valid options
        let cells = grid_size * grid_size;
        for id in 0..cells
            invariant
                grid_size == self.columns,
                n == grid_size,
                cells == n * n,
                m == state@,
                self.grid_ok(),
                forall|j: int| 0 <= j < n ==> !#[trigger] line_overfull(m, n, j),
                !has_three(m, n),
                forall|j: int| 0 <= j < id && is_blank(m, j) ==> #[trigger] valid_symbols(m, n, j).len() != 0,
        {
            if Self::is_blank_cell(state, id) && self.get_valid_symbols(state, id).len() == 0 {
                return true;
            }
        }

        false
    }

    /// How close row (`is_row`) or column `index` is to its symbol limits:
    /// its `X` plus its `Y`, each counted up to half the width.
    pub fn calculate_constraint_pressure(&self, state: &LevelState, index: i32, is_row: bool) -> (r: i32)
        requires
            self.grid_ok(),
            if is_row { self.row_fits(index as int) } else { self.col_fits(index as int) },
        ensures
            r == pressure(state@, self.columns as int, index as int, is_row),
            0 <= r <= self.columns,
    {
        let grid_size = self.get_grid_size();
        let max_per_line = grid_size / 2;

        let (x_count, y_count) = if is_row {
            (
                self.count_symbol_in_row(state, index, &Symbol::X),
                self.count_symbol_in_row(state, index, &Symbol::Y),
            )
        } else {
            (
                self.count_symbol_in_col(state, index, &Symbol::X),
                self.count_symbol_in_col(state, index, &Symbol::Y),
            )
        };

        // Higher pressure when closer to limits
        x_count.min(max_per_line) + y_count.min(max_per_line)
    }

    /// The blank cell to fill next, visiting the cells in `ids` (a shuffle of
    /// all cell ids): the first with a single valid symbol, else the one with
    /// the fewest valid symbols and, among those, the highest pressure, that
    /// is the one whose row and column are closest to their symbol limits.
    pub fn choose_best_cell(&self, state: &LevelState, ids: &Vec<i32>) -> (r: Option<i32>)
        requires
            self.grid_ok(),
            forall|i: int| 0 <= i < ids@.len() ==> 0 <= #[trigger] ids@[i] < self.columns * self.columns,
        ensures
            r == chosen_cell(state@, self.columns as int, ids@),
            r matches Some(c) ==> 0 <= c < self.columns * self.columns && is_blank(state@, c as int)
                && valid_symbols(state@, self.columns as int, c as int).len() > 0,
    {
        proof {
            crate::rules::lemma_chosen_cell_from(state@, self.columns as int, ids@, 0, None, usize::MAX as int, 0);
        }
        let ghost m = state@;
        let ghost n = self.columns as int;
        let mut best_cell = None;
        let mut min_options = usize::MAX;
        let mut max_constraint_pressure: i32 = 0;

        for k in 0..ids.len()
            invariant
                m == state@,
                n == self.columns,
                self.grid_ok(),
                forall|i: int| 0 <= i < ids@.len() ==> 0 <= #[trigger] ids@[i] < self.columns * self.columns,
                chosen_cell(m, n, ids@) == chosen_cell_from(m, n, ids@, k as int, best_cell,
                    min_options as int, max_constraint_pressure as int),
        {
            let id = ids[k];
            if Self::is_blank_cell(state, id) {
                let valid_options = self.get_valid_symbols(state, id);
                let option_count = valid_options.len();

                if option_count != 0 {
                    // Calculate constraint pressure (how close row/col are to limits)
                    let (row, col) = self.id_to_coords(id);
                    proof {
                        crate::rules::lemma_line_ids_fit(self.columns as int, row as int);
                        crate::rules::lemma_line_ids_fit(self.columns as int, col as int);
                    }
                    let row_pressure = self.calculate_constraint_pressure(state, row, true);
                    let col_pressure = self.calculate_constraint_pressure(state, col, false);
                    proof {
                        crate::rules::lemma_grid_width_bound(n);
                    }
                    let total_pressure = row_pressure + col_pressure;
                    assert(total_pressure == cell_pressure(m, n, id as int));

                    // Priority 1: Cells with only 1 option
                    if option_count == 1 {
                        return Some(id);
                    }

                    // Priority 2 & 3: Fewest options + highest constraint pressure
                    if option_count < min_options || (option_count == min_options
                        && total_pressure > max_constraint_pressure) {
                        best_cell = Some(id);
                        min_options = option_count;
                        max_constraint_pressure = total_pressure;
                    }
                }
            }
        }

        best_cell
    }
    /// One step of a search that started at `start_ms` and may run for
    /// `max_duration` seconds, read at `now_ms`: a search with entries left
    /// runs out of time once more than `max_duration * 1000` milliseconds
    /// have passed; otherwise the step is `solve_step`'s. An exhausted
    /// search hands the level back as it was.
    pub fn timed_solve_step(
        &self,
        solver: &mut Solver,
        ids: &Vec<i32>,
        start_ms: u64,
        now_ms: u64,
        max_duration: u64,
    ) -> (r: TimedStep)
        requires
            self.grid_ok(),
            frames_ok(old(solver)@),
            forall|i: int| 0 <= i < ids@.len() ==> 0 <= #[trigger] ids@[i] < self.columns * self.columns,
            start_ms <= now_ms,
            max_duration * 1000 <= u64::MAX,
        ensures
            frames_ok(final(solver)@),
            old(solver)@.len() == 0 ==> (r matches TimedStep::Went(SolveStep::Exhausted)) && final(solver)@ == old(
                solver,
            )@,
            old(solver)@.len() > 0 && now_ms - start_ms > max_duration * 1000 ==> r is TimedOut && final(solver)@
                == old(solver)@,
            old(solver)@.len() > 0 && now_ms - start_ms <= max_duration * 1000 ==> {
                let (stack, found) = after_step(old(solver)@, self.columns as int, ids@);
                &&& final(solver)@ == stack
                &&& match r {
                    TimedStep::Went(SolveStep::Solved(s)) => found == Some(s@),
                    TimedStep::Went(SolveStep::Searching) => found is None,
                    _ => false,
                }
            },
    {
        if !solver.is_searching() {
            return TimedStep::Went(SolveStep::Exhausted);
        }
        // check for timeout
        if now_ms - start_ms > max_duration * 1000 {
            return TimedStep::TimedOut;
        }
        TimedStep::Went(self.solve_step(solver, ids))
    }

    /// Fills every blank cell that can take only one symbol, sweeping over
    /// the cells in id order and sweeping again until a sweep fills nothing.
    pub fn propagate_all_constraints(&self, state: &mut LevelState)
        requires
            self.grid_ok(),
        ensures
            propagated(old(state)@, self.columns as int, final(state)@),
    {
        let mut changed = true;
        let grid_size = self.get_grid_size();
        let ghost n = grid_size as int;
        let ghost orig = state@;
        let ghost mut k: nat = 0;
        let cells = grid_size * grid_size;

        while changed
            invariant
                n == self.columns,
                self.grid_ok(),
                cells == n * n,
                state@ == sweeps(orig, n, k),
                forall|j: nat| j < k ==> #[trigger] sweeps(orig, n, j) != sweeps(orig, n, j + 1),
                !changed ==> full_sweep(state@, n) == state@,
            decreases blank_count(state@, (n * n) as nat) + if changed { 1int } else { 0int },
        {
            changed = false;
            let ghost prev = state@;
            proof {
                lemma_blank_count_bounds(prev, (n * n) as nat);
            }

            // Check all empty cells for forced moves
            for id in 0..cells
                invariant
                    n == self.columns,
                    self.grid_ok(),
                    cells == n * n,
                    state@ == sweep(prev, n, id as nat),
                    !changed ==> state@ == prev,
                    changed ==> blank_count(state@, (n * n) as nat) < blank_count(prev, (n * n) as nat),
                    blank_count(state@, (n * n) as nat) <= blank_count(prev, (n * n) as nat),
            {
                if Self::is_blank_cell(state, id) {
                    if let Some(forced_symbol) = self.get_forced_symbol(state, id) {
                        proof {
                            lemma_blank_count_fill(state@, (n * n) as nat, id as int, forced_symbol);
                        }
                        state.cells.insert(id, forced_symbol);
                        changed = true;
                    }
                }
            }
            proof {
                lemma_blank_count_bounds(state@, (n * n) as nat);
                if changed {
                    assert(sweeps(orig, n, (k + 1) as nat) == full_sweep(sweeps(orig, n, k), n));
                    k = (k + 1) as nat;
                }
            }
        }
        assert(state@ == sweeps(orig, n, k));
    }
    /// One step of the search, visiting the cells in `ids` (a shuffle of all
    /// cell ids) when a cell has to be chosen.
    pub fn solve_step(&self, solver: &mut Solver, ids: &Vec<i32>) -> (r: SolveStep)
        requires
            self.grid_ok(),
            frames_ok(old(solver)@),
            forall|i: int| 0 <= i < ids@.len() ==> 0 <= #[trigger] ids@[i] < self.columns * self.columns,
        ensures
            frames_ok(final(solver)@),
            old(solver)@.len() == 0 ==> r is Exhausted && final(solver)@ == old(solver)@,
            old(solver)@.len() > 0 ==> {
                let (stack, found) = after_step(old(solver)@, self.columns as int, ids@);
                &&& final(solver)@ == stack
                &&& match r {
                    SolveStep::Solved(s) => found == Some(s@),
                    SolveStep::Searching => found is None,
                    SolveStep::Exhausted => false,
                }
            },
    {
        let ghost n = self.columns as int;
        let ghost frames = solver@;
        let frame = match solver.stack.pop() {
            Some(f) => f,
            None => {
                return SolveStep::Exhausted;
            },
        };
        assert(solver@ =~= frames.drop_last());
        assert(frame@ == frames.last());
        let SolverFrame { state: mut current_state, last_cell, remaining_options: mut remaining_options } = frame;
        let ghost rest = solver@;
        assert(frames_ok(rest)) by {
            assert forall|i: int| 0 <= i < rest.len() && (#[trigger] rest[i]).2.len() > 0 implies rest[i].1 is Some by {
                assert(rest[i] == frames[i]);
            }
        }

        // 1. PROPAGATE CONSTRAINTS
        self.propagate_all_constraints(&mut current_state);
        proof {
            lemma_propagation(frame@.0, n, current_state@);
        }

        // 2. CHECK IF STUCK
        if self.in_impossible_state(&current_state) {
            return SolveStep::Searching;
        }
        // 3. CHECK IF DONE
        if self.solved(&current_state) {
            if self.validate_final_solution(&current_state) {
                return SolveStep::Solved(current_state);
            } else {
                return SolveStep::Searching;  // Keep searching
            }
        }

        // 4. MAKE SMART GUESS
        let (cell, symbol) = if !remaining_options.is_empty() {
            // Continue with previous cell's remaining options
            assert(frames_ok(frames) && frames[frames.len() - 1] == frame@);
            (last_cell, remaining_options.pop().unwrap())
        } else {
            // Pick new cell and get all its options
            let cell = self.choose_best_cell(&current_state, ids);
            if cell.is_none() {
                return SolveStep::Searching;  // No valid cells left, backtrack
            }
            remaining_options = self.get_valid_symbols(&current_state, cell.unwrap());
            if remaining_options.is_empty() {
                return SolveStep::Searching;  // No valid symbols for this cell, backtrack
            }
            let symbol = remaining_options.pop().unwrap();
            (cell, symbol)
        };

        // Try this symbol
        let mut new_state = current_state.clone();
        new_state.cells.insert(cell.unwrap(), symbol);

        // 5. SAVE BACKTRACK POINT
        if !remaining_options.is_empty() {
            solver.stack.push(SolverFrame { state: current_state, last_cell: cell, remaining_options });
        }
        // Continue with this guess
        solver.stack.push(SolverFrame { state: new_state, last_cell: None, remaining_options: Vec::new() });
        assert(solver@ =~= push_guess(rest, current_state@, cell.unwrap(), symbol, remaining_options@));
        SolveStep::Searching
    }
    /// The direction from the first id of `ids` to the second.
    pub fn get_contraint_direction(&self, ids: (i32, i32)) -> (r: ConstraintDirection)
        requires
            i32::MIN <= ids.1 - ids.0 <= i32::MAX,
        ensures
            r == direction_between(ids.0 as int, ids.1 as int, self.columns as int),
    {
        let id1 = ids.0;
        let id2 = ids.1;
        if id2 - id1 == 1 {
            ConstraintDirection::Right
        } else if id2 - id1 == -1 {
            ConstraintDirection::Left
        } else if id2 - id1 == self.columns {
            ConstraintDirection::Bot
        } else {
            ConstraintDirection::Top
        }
    }

    /// `neighbour`, unless a mark on `id` facing `constraint_direction`
    /// would point out of the grid.
    pub fn get_border_free(&self, id: i32, neighbour: i32, constraint_direction: ConstraintDirection) -> (r: Option<i32>)
        requires
            self.columns != 0,
            self.columns != i32::MIN,
            !(id == i32::MIN && self.columns == -1),
        ensures
            r == if points_outside(id as int, self.columns as int, constraint_direction) {
                None
            } else {
                Some(neighbour)
            },
    {
        proof {
            crate::level::lemma_trunc_bounds(id as int, self.columns as int);
        }
        let first_row_col: i32 = 0;
        let last_row_col = self.columns - 1;
        let row = id / self.columns;
        let col = id % self.columns;
        let forbidden = {
            // 1. check the border rows and col
            (row == first_row_col && constraint_direction == ConstraintDirection::Top)  // top row
             || (row == last_row_col && constraint_direction == ConstraintDirection::Bot)  // bot row
             || (col == first_row_col && constraint_direction == ConstraintDirection::Left)  // left col
             || (col == last_row_col && constraint_direction == ConstraintDirection::Right)  // right col
            // 2. check the corners
            // top left corner
             || (row == first_row_col && col == first_row_col) && (constraint_direction
                == ConstraintDirection::Top || constraint_direction == ConstraintDirection::Left)
            // top right corner
             || (row == first_row_col && col == last_row_col) && (constraint_direction
                == ConstraintDirection::Top || constraint_direction == ConstraintDirection::Right)
            // bot right corner
             || (row == last_row_col && col == last_row_col) && (constraint_direction
                == ConstraintDirection::Bot || constraint_direction == ConstraintDirection::Right)
            // bot left corner
             || (row == last_row_col && col == first_row_col) && (constraint_direction
                == ConstraintDirection::Bot || constraint_direction == ConstraintDirection::Left)
        };
        if forbidden {
            None
        } else {
            Some(neighbour)
        }
    }

    /// Whether `pairs` holds `pair`.
    fn holds_pair(pairs: &Vec<(i32, i32)>, pair: (i32, i32)) -> (r: bool)
        ensures
            r == pairs@.contains(pair),
    {
        let mut i: usize = 0;
        while i < pairs.len()
            invariant
                i <= pairs.len(),
                forall|j: int| 0 <= j < i ==> pairs@[j] != pair,
            decreases pairs.len() - i,
        {
            if pairs[i].0 == pair.0 && pairs[i].1 == pair.1 {
                assert(pairs@[i as int] == pair);
                return true;
            }
            i += 1;
        }
        false
    }

    /// Two neighbouring cells for a new mark: see `pair_from`. `ids` is a
    /// shuffle of the level's ids, `constraint` the kind of mark drawn, and
    /// `directions[i]` the direction drawn for `ids[i]`.
    pub fn get_random_pair(
        &self,
        level: &Level,
        checked_pairs: &Vec<(i32, i32)>,
        ids: &Vec<i32>,
        constraint: Constraint,
        directions: &Vec<ConstraintDirection>,
    ) -> (r: Option<((i32, i32), Symbol)>)
        requires
            self.grid_ok(),
            directions@.len() == ids@.len(),
            forall|i: int| 0 <= i < ids@.len() ==> 0 <= #[trigger] ids@[i] < self.columns * self.columns,
        ensures
            r == pair_from(self.columns as int, *level, checked_pairs@, ids@, constraint, directions@, 0),
    {
        proof {
            crate::rules::lemma_grid_width_bound(self.columns as int);
        }
        for k in 0..ids.len()
            invariant
                self.grid_ok(),
                self.columns <= 46340,
                directions@.len() == ids@.len(),
                forall|i: int| 0 <= i < ids@.len() ==> 0 <= #[trigger] ids@[i] < self.columns * self.columns,
                pair_from(self.columns as int, *level, checked_pairs@, ids@, constraint, directions@, 0)
                    == pair_from(self.columns as int, *level, checked_pairs@, ids@, constraint, directions@, k as int),
        {
            let id1 = ids[k];
            let constraint_direction = directions[k];
            assert(0 <= id1 < self.columns * self.columns);
            assert(self.columns * self.columns + self.columns <= i32::MAX) by (nonlinear_arith)
                requires
                    0 < self.columns <= 46340,
            ;
            let id2 = match constraint_direction {
                ConstraintDirection::Top => self.get_border_free(id1, id1 - self.columns, constraint_direction),
                ConstraintDirection::Right => self.get_border_free(id1, id1 + 1, constraint_direction),
                ConstraintDirection::Bot => self.get_border_free(id1, id1 + self.columns, constraint_direction),
                ConstraintDirection::Left => self.get_border_free(id1, id1 - 1, constraint_direction),
                ConstraintDirection::Unset => None,
            };
            let id2 = match id2 {
                Some(id2) => id2,
                None => {
                    return None;
                },
            };
            let s1 = match level.get_cell(id1) {
                Some(c) => c.get_symbol(),
                None => {
                    return None;
                },
            };
            let s2 = match level.get_cell(id2) {
                Some(c) => c.get_symbol(),
                None => {
                    return None;
                },
            };

            match constraint {
                Constraint::Equal => {
                    if s1 != Symbol::Empty && s1 == s2 && !Self::holds_pair(checked_pairs, (id1, id2)) {
                        return Some(((id1, id2), s1));
                    }
                },
                Constraint::NonEqual => {
                    if s1 != Symbol::Empty && s1 != s2 && !Self::holds_pair(checked_pairs, (id1, id2)) {
                        return Some(((id1, id2), Symbol::Empty));
                    }
                },
                Constraint::Unset => {},
            }
        }
        None
    }
    /// Whether more pairs for marks are wanted: fewer than
    /// `settings.constraints` are drawn so far.
    pub fn more_pairs_wanted(&self, settings: &LevelSettings, picked: &Vec<((i32, i32), Symbol)>) -> (r: bool)
        ensures
            r == (picked@.len() < settings.constraints),
    {
        settings.constraints > 0 && picked.len() < settings.constraints as usize
    }

    /// One draw for a new mark: the pair that `get_random_pair` finds with
    /// the drawn `ids`, `constraint` and `directions`, not taking a pair
    /// already in `picked`, joins `picked`. Whether a pair was found.
    pub fn draw_pair(
        &self,
        level: &Level,
        picked: &mut Vec<((i32, i32), Symbol)>,
        ids: &Vec<i32>,
        constraint: Constraint,
        directions: &Vec<ConstraintDirection>,
    ) -> (r: bool)
        requires
            self.grid_ok(),
            directions@.len() == ids@.len(),
            forall|i: int| 0 <= i < ids@.len() ==> 0 <= #[trigger] ids@[i] < self.columns * self.columns,
        ensures
            ({
                let found = pair_from(
                    self.columns as int,
                    *level,
                    picked_pairs(old(picked)@),
                    ids@,
                    constraint,
                    directions@,
                    0,
                );
                &&& r == found is Some
                &&& final(picked)@ == match found {
                    Some(p) => old(picked)@.push(p),
                    None => old(picked)@,
                }
            }),
            drawn_well(*level, self.columns as int, old(picked)@) ==> drawn_well(
                *level,
                self.columns as int,
                final(picked)@,
            ),
    {
        let mut checked: Vec<(i32, i32)> = Vec::new();
        for k in 0..picked.len()
            invariant
                checked@ == picked_pairs(picked@.take(k as int)),
        {
            checked.push(picked[k].0);
            assert(picked_pairs(picked@.take(k + 1)) =~= picked_pairs(picked@.take(k as int)).push(picked@[k as int].0));
        }
        assert(picked@.take(picked.len() as int) =~= picked@);
        match self.get_random_pair(level, &checked, ids, constraint, directions) {
            Some(p) => {
                proof {
                    crate::rules::lemma_grid_width_bound(self.columns as int);
                    lemma_drawn_pair_well(self.columns as int, *level, checked@, ids@, constraint, directions@, 0);
                    lemma_chosen_pair_marks_face_each_other(
                        self.columns as int,
                        *level,
                        checked@,
                        ids@,
                        constraint,
                        directions@,
                        0,
                    );
                    let old_picked = picked@;
                    let new_picked = old_picked.push(p);
                    if drawn_well(*level, self.columns as int, old_picked) {
                        assert forall|j: int, k: int| 0 <= j < k < new_picked.len() implies (
                        #[trigger] new_picked[j]).0 != (#[trigger] new_picked[k]).0 by {
                            if k == old_picked.len() {
                                assert(checked@[j] == old_picked[j].0);
                                assert(!checked@.contains(p.0));
                            } else {
                                assert(new_picked[j] == old_picked[j] && new_picked[k] == old_picked[k]);
                            }
                        }
                        assert forall|k: int| 0 <= k < new_picked.len() implies #[trigger] pair_drawn_well(
                            *level,
                            self.columns as int,
                            new_picked[k],
                        ) by {
                            if k < old_picked.len() {
                                assert(new_picked[k] == old_picked[k]);
                            }
                        }
                    }
                }
                picked.push(p);
                true
            },
            None => false,
        }
    }

    /// Puts the marks of each chosen pair on its two cells.
    #[verifier::rlimit(40)]
    fn place_marks(&self, level: &mut Level, picked: &Vec<((i32, i32), Symbol)>)
        requires
            forall|k: int| 0 <= k < picked@.len() ==> {
                let p = #[trigger] picked@[k];
                &&& old(level).cell_at(p.0.0 as int) is Some
                &&& old(level).cell_at(p.0.1 as int) is Some
                &&& i32::MIN <= p.0.1 - p.0.0 <= i32::MAX
            },
        ensures
            final(level).columns == old(level).columns,
            final(level).cell_properties@ == old(level).cell_properties@,
            final(level).cells@.len() == old(level).cells@.len(),
            forall|i: int| 0 <= i < old(level).cells@.len() ==> {
                &&& marked_like(old(level).cells@[i], #[trigger] final(level).cells@[i],
                    marks_added(picked@, self.columns as int, old(level).cells@.len() as int, i))
                &&& final(level).cells@[i].symbol == old(level).cells@[i].symbol
            },
    {
        let ghost start = *level;
        let ghost len = start.cells@.len() as int;
        let ghost n = self.columns as int;
        assert forall|i: int| 0 <= i < len implies marked_like(start.cells@[i], #[trigger] level.cells@[i],
            marks_added(picked@.take(0), n, len, i)) by {
            assert(picked@.take(0) =~= Seq::<((i32, i32), Symbol)>::empty());
            assert(start.cells@[i].props.constraint_props@ + Seq::<ConstraintProps>::empty() =~= start.cells@[i].props.constraint_props@);
        }
        for k in 0..picked.len()
            invariant
                len == start.cells@.len(),
                n == self.columns,
                forall|k: int| 0 <= k < picked@.len() ==> {
                    let p = #[trigger] picked@[k];
                    &&& start.cell_at(p.0.0 as int) is Some
                    &&& start.cell_at(p.0.1 as int) is Some
                    &&& i32::MIN <= p.0.1 - p.0.0 <= i32::MAX
                },
                level.columns == start.columns,
                level.cell_properties@ == start.cell_properties@,
                level.cells@.len() == len,
                forall|i: int| 0 <= i < len ==> {
                    &&& marked_like(start.cells@[i], #[trigger] level.cells@[i], marks_added(picked@.take(k as int), n, len, i))
                    &&& level.cells@[i].symbol == start.cells@[i].symbol
                },
        {
            let ((id1, id2), symbol) = picked[k];
            let direction = self.get_contraint_direction((id1, id2));
            let constraint_props_id1 = match symbol {
                // Non Equal constraint
                Symbol::Empty => ConstraintProps::new(Constraint::NonEqual, direction),
                // Equal constraint
                _ => ConstraintProps::new(Constraint::Equal, direction),
            };
            let constraint_props_id2 = match constraint_props_id1.constraint_direction {
                ConstraintDirection::Bot => {
                    if constraint_props_id1.constraint == Constraint::Equal {
                        ConstraintProps::new(Constraint::Equal, ConstraintDirection::Top)
                    } else {
                        ConstraintProps::new(Constraint::NonEqual, ConstraintDirection::Top)
                    }
                },
                ConstraintDirection::Top => {
                    if constraint_props_id1.constraint == Constraint::Equal {
                        ConstraintProps::new(Constraint::Equal, ConstraintDirection::Bot)
                    } else {
                        ConstraintProps::new(Constraint::NonEqual, ConstraintDirection::Bot)
                    }
                },
                ConstraintDirection::Right => {
                    if constraint_props_id1.constraint == Constraint::Equal {
                        ConstraintProps::new(Constraint::Equal, ConstraintDirection::Left)
                    } else {
                        ConstraintProps::new(Constraint::NonEqual, ConstraintDirection::Left)
                    }
                },
                ConstraintDirection::Left => {
                    if constraint_props_id1.constraint == Constraint::Equal {
                        ConstraintProps::new(Constraint::Equal, ConstraintDirection::Right)
                    } else {
                        ConstraintProps::new(Constraint::NonEqual, ConstraintDirection::Right)
                    }
                },
                _ => ConstraintProps::new(Constraint::Unset, ConstraintDirection::Unset),
            };
            let ghost m1 = first_mark((id1, id2), symbol, n);
            assert(constraint_props_id1 == m1);
            assert(constraint_props_id2 == mirror_mark(m1));
            assert(picked@[k as int] == ((id1, id2), symbol));
            let ghost before = *level;
            level.add_constraint_props_at(id1, constraint_props_id1);
            let ghost middle = *level;
            level.add_constraint_props_at(id2, constraint_props_id2);
            proof {
                let ia = child_index(id1 as int, len).unwrap();
                let ib = child_index(id2 as int, len).unwrap();
                let t = picked@.take(k + 1);
                assert(t.drop_last() =~= picked@.take(k as int));
                assert(t.last() == ((id1, id2), symbol));
                assert forall|i: int| 0 <= i < len implies {
                    &&& marked_like(start.cells@[i], #[trigger] level.cells@[i], marks_added(t, n, len, i))
                    &&& level.cells@[i].symbol == start.cells@[i].symbol
                } by {
                    let a0 = marks_added(picked@.take(k as int), n, len, i);
                    let a1 = if ia == i { a0.push(m1) } else { a0 };
                    let a2 = if ib == i { a1.push(mirror_mark(m1)) } else { a1 };
                    assert(marks_added(t, n, len, i) =~= a2);
                    assert(marked_like(start.cells@[i], before.cells@[i], a0));
                    if ia == i {
                        lemma_marked_step(start.cells@[i], before.cells@[i], middle.cells@[i], a0, m1);
                    }
                    assert(marked_like(start.cells@[i], middle.cells@[i], a1));
                    if ib == i {
                        lemma_marked_step(start.cells@[i], middle.cells@[i], level.cells@[i], a1, mirror_mark(m1));
                    }
                }
            }
        }
        assert(picked@.take(picked.len() as int) =~= picked@);
    }
    /// Hides symbols walking the candidate ids `cands` in order, until
    /// `left` are hidden: see `hide_walk`. Everything else stays.
    fn hide_symbols(level: &mut Level, cands: &Vec<i32>, left: i32)
        ensures
            final(level).columns == old(level).columns,
            final(level).cell_properties@ == old(level).cell_properties@,
            final(level).cells@.len() == old(level).cells@.len(),
            cell_symbols(final(level).cells@) == hide_walk(cell_symbols(old(level).cells@), cands@, 0, left as int),
            forall|i: int| 0 <= i < old(level).cells@.len() ==> #[trigger] final(level).cells@[i] == (GridCell {
                symbol: final(level).cells@[i].symbol,
                ..old(level).cells@[i]
            }),
    {
        let ghost start = *level;
        let ghost left0 = left as int;
        let mut left = left;
        let mut j: usize = 0;
        while j < cands.len() && left > 0
            invariant
                j <= cands@.len(),
                level.columns == start.columns,
                level.cell_properties@ == start.cell_properties@,
                level.cells@.len() == start.cells@.len(),
                forall|i: int| 0 <= i < start.cells@.len() ==> #[trigger] level.cells@[i] == (GridCell {
                    symbol: level.cells@[i].symbol,
                    ..start.cells@[i]
                }),
                hide_walk(cell_symbols(start.cells@), cands@, 0, left0) == hide_walk(
                    cell_symbols(level.cells@),
                    cands@,
                    j as int,
                    left as int,
                ),
            decreases cands@.len() - j,
        {
            let id = cands[j];
            let ghost syms = cell_symbols(level.cells@);
            match level.get_symbol(id) {
                Some(sym) => {
                    if sym != Symbol::Empty {
                        let ghost ci = child_index(id as int, level.cells@.len() as int).unwrap();
                        level.hide_symbol_at(id);
                        assert(cell_symbols(level.cells@) =~= syms.update(ci, Symbol::Empty));
                        left -= 1;
                    }
                },
                None => {},
            }
            j += 1;
        }
    }

    /// Sets the marks and hides the symbols of a solved level: each drawn
    /// pair (see `draw_pair`) gets its mark on both cells, then symbols are
    /// hidden until only `visible_symbols` are left: first those of the
    /// pairs' first cells, then those of the cells of `shuffled_ids` (a
    /// shuffle of the level's ids), passing cells already blank.
    pub fn apply_settings(
        &self,
        level: &mut Level,
        settings: &LevelSettings,
        picked: &Vec<((i32, i32), Symbol)>,
        shuffled_ids: &Vec<i32>,
    )
        requires
            old(level).ids_fit(),
            drawn_well(*old(level), self.columns as int, picked@),
            picked@.len() == if settings.constraints > 0 { settings.constraints as int } else { 0 },
            i32::MIN <= old(level).id_count() - settings.visible_symbols <= i32::MAX,
        ensures
            final(level).columns == old(level).columns,
            final(level).cell_properties@ == old(level).cell_properties@,
            final(level).cells@.len() == old(level).cells@.len(),
            forall|i: int| 0 <= i < old(level).cells@.len() ==> marked_like(old(level).cells@[i], #[trigger] final(level).cells@[i],
                marks_added(picked@, self.columns as int, old(level).cells@.len() as int, i)),
            forall|k: int| 0 <= k < settings.constraints ==> {
                let p = #[trigger] picked@[k];
                let m1 = first_mark(p.0, p.1, self.columns as int);
                let len = old(level).cells@.len() as int;
                &&& final(level).cells@[child_index(p.0.0 as int, len).unwrap()].props.constraint_props@.contains(m1)
                &&& final(level).cells@[child_index(p.0.1 as int, len).unwrap()].props.constraint_props@.contains(
                    mirror_mark(m1),
                )
            },
            cell_symbols(final(level).cells@) == symbols_after_settings(*old(level), *settings, picked@, shuffled_ids@),
    {
        let ghost start = *level;
        let ghost n = self.columns as int;
        proof {
            assert forall|k: int| 0 <= k < picked@.len() implies {
                let p = #[trigger] picked@[k];
                &&& start.cell_at(p.0.0 as int) is Some
                &&& start.cell_at(p.0.1 as int) is Some
                &&& i32::MIN <= p.0.1 - p.0.0 <= i32::MAX
            } by {
                assert(pair_drawn_well(start, n, picked@[k]));
            }
        }
        self.place_marks(level, picked);
        let ghost marked = *level;
        assert(cell_symbols(marked.cells@) =~= cell_symbols(start.cells@));

        // --- Make Symbols hidden again except for a number of symbols specified in the settings
        let amount_visible_symbols = settings.visible_symbols;
        let amount_hidden_symbols = level.get_ids().len() as i32 - amount_visible_symbols;
        // 1. the first cells of the pairs, 2. the cells in shuffled order
        let mut cands: Vec<i32> = Vec::new();
        for k in 0..picked.len()
            invariant
                cands@ == first_ids(picked@.take(k as int)),
        {
            cands.push(picked[k].0.0);
            assert(cands@ =~= first_ids(picked@.take(k + 1)));
        }
        assert(picked@.take(picked.len() as int) =~= picked@);
        for k in 0..shuffled_ids.len()
            invariant
                cands@ == first_ids(picked@) + shuffled_ids@.take(k as int),
        {
            cands.push(shuffled_ids[k]);
            assert(cands@ =~= first_ids(picked@) + shuffled_ids@.take(k + 1));
        }
        assert(shuffled_ids@.take(shuffled_ids.len() as int) =~= shuffled_ids@);
        Self::hide_symbols(level, &cands, amount_hidden_symbols);
        proof {
            assert forall|i: int| 0 <= i < start.cells@.len() implies marked_like(start.cells@[i], #[trigger] level.cells@[i],
                marks_added(picked@, n, start.cells@.len() as int, i)) by {
                assert(level.cells@[i] == (GridCell { symbol: level.cells@[i].symbol, ..marked.cells@[i] }));
            }
            assert forall|k: int| 0 <= k < settings.constraints implies {
                let p = #[trigger] picked@[k];
                let m1 = first_mark(p.0, p.1, n);
                let len = start.cells@.len() as int;
                &&& level.cells@[child_index(p.0.0 as int, len).unwrap()].props.constraint_props@.contains(m1)
                &&& level.cells@[child_index(p.0.1 as int, len).unwrap()].props.constraint_props@.contains(mirror_mark(m1))
            } by {
                let p = picked@[k];
                let len = start.cells@.len() as int;
                assert(pair_drawn_well(start, n, p));
                lemma_marks_added_holds(picked@, n, len, k);
                let ia = child_index(p.0.0 as int, len).unwrap();
                let ib = child_index(p.0.1 as int, len).unwrap();
                let m1 = first_mark(p.0, p.1, n);
                let added_a = marks_added(picked@, n, len, ia);
                let added_b = marks_added(picked@, n, len, ib);
                assert(marked_like(start.cells@[ia], level.cells@[ia], added_a));
                assert(marked_like(start.cells@[ib], level.cells@[ib], added_b));
                let ja = choose|j: int| 0 <= j < added_a.len() && added_a[j] == m1;
                let jb = choose|j: int| 0 <= j < added_b.len() && added_b[j] == mirror_mark(m1);
                let ba = start.cells@[ia].props.constraint_props@;
                let bb = start.cells@[ib].props.constraint_props@;
                assert((ba + added_a)[ba.len() + ja] == m1);
                assert((bb + added_b)[bb.len() + jb] == mirror_mark(m1));
            }
        }
    }

    pub fn set_columns(&mut self, columns: i32)
        ensures
            final(self).columns == columns,
    {
        self.columns = columns;
    }

    /// The props of cells `0 .. columns * columns` showing the symbols of
    /// `state`.
    fn props_from_state(&self, state: &LevelState) -> (r: Vec<CellProps>)
        requires
            self.grid_ok(),
        ensures
            props_views(r@) == state_props(state@, self.columns as int),
            r@.len() == self.columns * self.columns,
    {
        let mut cell_props: Vec<CellProps> = Vec::new();
        let cells = self.get_grid_size() * self.get_grid_size();
        for id in 0..cells
            invariant
                cells == self.columns * self.columns,
                props_views(cell_props@) == state_props(state@, self.columns as int).take(id as int),
                cell_props@.len() == id,
        {
            let symbol = match state.get(id) {
                Some(s) => s,
                None => Symbol::Empty,
            };
            let prop = CellProps::new(id, symbol, Vec::new());
            let ghost before = cell_props@;
            cell_props.push(prop);
            assert(props_views(cell_props@) =~= state_props(state@, self.columns as int).take(id + 1)) by {
                assert(props_views(before) == state_props(state@, self.columns as int).take(id as int));
                assert forall|j: int| 0 <= j < id implies cell_props@[j]@ == props_views(before)[j] by {
                    assert(cell_props@[j] == before[j]);
                }
            }
        }
        assert(state_props(state@, self.columns as int).take(cells as int) =~= state_props(state@, self.columns as int));
        cell_props
    }

    /// A preview level showing the symbols of `state`: one disabled cell
    /// per id, no marks. The builder stays as it is.
    pub fn generate_level_from_state(&mut self, state: &LevelState) -> (r: Level)
        requires
            old(self).grid_ok(),
        ensures
            *final(self) == *old(self),
            props_views(r.cell_properties@) == state_props(state@, old(self).columns as int),
            r.columns == old(self).columns,
            cells_built_from(r.cells@, state_props(state@, old(self).columns as int), true),
    {
        self.level_from_state(state)
    }

    /// A preview level showing the symbols of `state`: see
    /// `generate_level_from_state`.
    fn level_from_state(&self, state: &LevelState) -> (r: Level)
        requires
            self.grid_ok(),
        ensures
            props_views(r.cell_properties@) == state_props(state@, self.columns as int),
            r.columns == self.columns,
            cells_built_from(r.cells@, state_props(state@, self.columns as int), true),
    {
        let mut level = Level::default();
        let cell_props = self.props_from_state(state);
        level.build_with_props_preview(cell_props);
        proof {
            let n = self.columns as int;
            assert((n + 1) * (n + 1) > n * n) by (nonlinear_arith)
                requires
                    n > 0,
            ;
            if level.columns < n {
                assert((level.columns + 1) * (level.columns + 1) <= n * n) by (nonlinear_arith)
                    requires
                        0 <= level.columns < n,
            ;
            } else if level.columns > n {
                assert(level.columns * level.columns > n * n) by (nonlinear_arith)
                    requires
                        level.columns > n > 0,
                ;
            }
        }
        level
    }

    /// A preview level of empty cells, one per id, no marks.
    pub fn build_default(&self) -> (r: Level)
        requires
            self.grid_ok(),
        ensures
            props_views(r.cell_properties@) == state_props(Map::empty(), self.columns as int),
            r.columns == self.columns,
            cells_built_from(r.cells@, state_props(Map::empty(), self.columns as int), true),
    {
        let state = LevelState { cells: HashMap::new() };
        self.level_from_state(&state)
    }

    /// The symbols of the existing cells of `level`, keyed by each cell's
    /// id: where the solver starts from.
    pub fn initial_state(&self, level: &Level) -> (r: LevelState)
        requires
            level.ids_fit(),
        ensures
            r@ == level_symbols(*level, level.cell_ids()),
    {
        let mut cells: HashMap<i32, Symbol> = HashMap::new();
        let ids = level.get_cells();
        assert(cells@ =~= level_symbols(*level, ids@.take(0)));
        for k in 0..ids.len()
            invariant
                level.ids_fit(),
                ids@ == level.cell_ids(),
                ids@.len() <= level.cells@.len(),
                ids@.len() <= level.id_count(),
                cells@ == level_symbols(*level, ids@.take(k as int)),
        {
            let id = ids[k];
            assert(id as int == k as int);
            let c = &level.cells[id as usize];
            cells.insert(c.get_id(), c.get_symbol());
            assert(ids@.take(k + 1).drop_last() =~= ids@.take(k as int));
        }
        assert(ids@.take(ids.len() as int) =~= ids@);
        LevelState { cells }
    }
}


/// A grid the solver reports found fills every cell it holds with a
/// symbol and keeps every rule.
pub proof fn lemma_found_grid_is_solution(
    frames: Seq<(Map<i32, Symbol>, Option<i32>, Seq<Symbol>)>,
    n: int,
    order: Seq<i32>,
)
    requires
        frames.len() > 0,
        after_step(frames, n, order).1 is Some,
    ensures
        valid_solution(after_step(frames, n, order).1.unwrap(), n),
        all_filled(after_step(frames, n, order).1.unwrap()),
        !impossible(after_step(frames, n, order).1.unwrap(), n),
{
}

/// The solution `s` is still open in the stack entry `f`: `s` solves the
/// entry's grid and, when symbols are left to try in the entry's cell,
/// puts one of them there.
pub open spec fn leaves_open(f: (Map<i32, Symbol>, Option<i32>, Seq<Symbol>), s: Map<i32, Symbol>, n: int) -> bool {
    &&& solves(s, f.0, n)
    &&& f.2.len() > 0 ==> f.1 is Some && sym(s, f.1.unwrap() as int) is Some && f.2.contains(
        sym(s, f.1.unwrap() as int).unwrap(),
    )
}

/// Some entry of the stack leaves the solution `s` open.
pub open spec fn stack_leaves_open(frames: Seq<(Map<i32, Symbol>, Option<i32>, Seq<Symbol>)>, s: Map<i32, Symbol>, n: int) -> bool {
    exists|i: int| 0 <= i < frames.len() && #[trigger] leaves_open(frames[i], s, n)
}

/// Every entry's grid holds exactly the cells of the `n`-wide grid, and
/// an entry with symbols left to try names a cell of the grid.
pub open spec fn entries_in_grid(frames: Seq<(Map<i32, Symbol>, Option<i32>, Seq<Symbol>)>, n: int) -> bool {
    forall|i: int|
        0 <= i < frames.len() ==> {
            let f = #[trigger] frames[i];
            &&& holds_grid(f.0, n)
            &&& f.2.len() > 0 ==> f.1 is Some && 0 <= f.1.unwrap() < n * n
        }
}

/// A step keeps the entries below the top of the stack as they are.
proof fn lemma_step_keeps_lower_entries(
    frames: Seq<(Map<i32, Symbol>, Option<i32>, Seq<Symbol>)>,
    n: int,
    order: Seq<i32>,
)
    requires
        frames.len() > 0,
    ensures
        after_step(frames, n, order).0.len() >= frames.len() - 1,
        forall|k: int| 0 <= k < frames.len() - 1 ==> #[trigger] after_step(frames, n, order).0[k] == frames[k],
{
}

/// The symbol `y` left in `q` is its last one or left in the rest.
proof fn lemma_last_or_rest(q: Seq<Symbol>, y: Symbol)
    requires
        q.contains(y),
    ensures
        q.len() > 0,
        y == q.last() || q.drop_last().contains(y),
{
    let j = choose|j: int| 0 <= j < q.len() && q[j] == y;
    if j < q.len() - 1 {
        assert(q.drop_last()[j] == y);
    }
}

/// Guessing `x` for cell `c`, with `remaining` left to try, keeps open a
/// solution of `cur` that puts `x`, or a symbol of `remaining`, in `c`.
proof fn lemma_guess_keeps_open(
    rest: Seq<(Map<i32, Symbol>, Option<i32>, Seq<Symbol>)>,
    cur: Map<i32, Symbol>,
    c: i32,
    x: Symbol,
    remaining: Seq<Symbol>,
    s: Map<i32, Symbol>,
    n: int,
)
    requires
        solves(s, cur, n),
        sym(s, c as int) is Some,
        sym(s, c as int).unwrap() == x || remaining.contains(sym(s, c as int).unwrap()),
    ensures
        stack_leaves_open(push_guess(rest, cur, c, x, remaining), s, n),
{
    let y = sym(s, c as int).unwrap();
    let stack = push_guess(rest, cur, c, x, remaining);
    let kept = if remaining.len() > 0 { rest.push((cur, Some(c), remaining)) } else { rest };
    if y == x {
        let g = cur.insert(c, x);
        assert forall|id: int| 0 <= id < n * n && !is_blank(g, id) implies #[trigger] sym(s, id) == sym(g, id) by {
            if id != c as int {
                assert(sym(g, id) == sym(cur, id));
            }
        }
        assert(extends(s, g, n));
        assert(leaves_open(stack[kept.len() as int], s, n));
    } else {
        assert(leaves_open(stack[rest.len() as int], s, n));
    }
}

/// A step of the search loses no solution: a solution that an entry of the
/// stack leaves open is left open by an entry after the step, unless the
/// step found a grid. This holds when every entry holds the cells of the
/// grid and `order` names every cell.
pub proof fn lemma_step_keeps_solutions_open(
    frames: Seq<(Map<i32, Symbol>, Option<i32>, Seq<Symbol>)>,
    n: int,
    order: Seq<i32>,
    s: Map<i32, Symbol>,
)
    requires
        0 < n,
        n * n <= i32::MAX,
        frames.len() > 0,
        entries_in_grid(frames, n),
        forall|k: int| 0 <= k < order.len() ==> 0 <= #[trigger] order[k] < n * n,
        forall|id: i32| 0 <= id < n * n ==> #[trigger] order.contains(id),
        stack_leaves_open(frames, s, n),
    ensures
        after_step(frames, n, order).1 is Some || stack_leaves_open(after_step(frames, n, order).0, s, n),
{
    let stack = after_step(frames, n, order).0;
    let found = after_step(frames, n, order).1;
    let top = frames.last();
    let rest = frames.drop_last();
    let i = choose|i: int| 0 <= i < frames.len() && #[trigger] leaves_open(frames[i], s, n);
    lemma_step_keeps_lower_entries(frames, n, order);
    if i < frames.len() - 1 {
        assert(stack[i] == frames[i]);
        return;
    }
    assert(leaves_open(top, s, n));
    assert(holds_grid(top.0, n));
    let cur = propagation(top.0, n);
    lemma_propagation_ends(top.0, n);
    lemma_propagation_keeps_solutions(s, top.0, n, cur);
    lemma_propagation_keeps_cells(top.0, n);
    if impossible(cur, n) {
        lemma_impossible_has_no_solution(s, cur, n);
    } else if all_filled(cur) {
        if !valid_solution(cur, n) {
            assert forall|id: int| 0 <= id < n * n implies #[trigger] sym(s, id) == sym(cur, id) by {
                assert(cur.contains_key(id as i32));
                assert(!is_blank(cur, id));
            }
            lemma_agreeing_grids_alike(s, cur, n);
        }
    } else if top.2.len() > 0 {
        let c = top.1.unwrap();
        let y = sym(s, c as int).unwrap();
        lemma_last_or_rest(top.2, y);
        lemma_guess_keeps_open(rest, cur, c, top.2.last(), top.2.drop_last(), s, n);
    } else {
        lemma_chosen_cell_from(cur, n, order, 0, None, usize::MAX as int, 0);
        match chosen_cell(cur, n, order) {
            None => {
                let k = choose|k: i32| cur.contains_key(k) && cur[k] == Symbol::Empty;
                assert(is_blank(cur, k as int));
                lemma_blank_cell_gets_chosen(cur, n, order, k as int);
            },
            Some(c) => {
                let j = choose|j: int| 0 <= j < order.len() && order[j] == c;
                assert(0 <= c < n * n);
                assert(!is_blank(s, c as int));
                let y = sym(s, c as int).unwrap();
                if !placement_ok(cur, n, c as int, y) {
                    lemma_ruled_out_not_in_solution(s, cur, n, c as int, y);
                }
                let options = valid_symbols(cur, n, c as int);
                if y == Symbol::X {
                    assert(options[0] == Symbol::X);
                } else {
                    assert(options[options.len() - 1] == Symbol::Y);
                }
                assert(options.contains(y));
                lemma_last_or_rest(options, y);
                lemma_guess_keeps_open(rest, cur, c, options.last(), options.drop_last(), s, n);
            },
        }
    }
}

/// Writing a symbol into a cell of the grid keeps the map's cells.
proof fn lemma_fill_keeps_grid(m: Map<i32, Symbol>, c: i32, x: Symbol, n: int)
    requires
        holds_grid(m, n),
        0 <= c < n * n,
    ensures
        holds_grid(m.insert(c, x), n),
{
    assert forall|k: i32| #[trigger] m.insert(c, x).contains_key(k) <==> 0 <= k < n * n by {
        assert(m.contains_key(k) <==> 0 <= k < n * n);
    }
}

/// Every entry of the stack keeps the symbols `start` holds on the cells of
/// the `n`-wide grid, and an entry with symbols left to try names a cell
/// that is blank in its grid, a grid that a further pass leaves as it is.
pub open spec fn entries_keep(
    frames: Seq<(Map<i32, Symbol>, Option<i32>, Seq<Symbol>)>,
    start: Map<i32, Symbol>,
    n: int,
) -> bool {
    forall|i: int|
        0 <= i < frames.len() ==> {
            let f = #[trigger] frames[i];
            &&& extends(f.0, start, n)
            &&& f.2.len() > 0 ==> f.1 is Some && is_blank(f.0, f.1.unwrap() as int) && full_sweep(f.0, n) == f.0
        }
}

/// The search starts from an entry that keeps the puzzle's symbols.
pub proof fn lemma_search_starts_keeping_givens(start: Map<i32, Symbol>, n: int)
    ensures
        entries_keep(seq![(start, Option::<i32>::None, Seq::<Symbol>::empty())], start, n),
{
    let frames = seq![(start, Option::<i32>::None, Seq::<Symbol>::empty())];
    assert(frames[0] == (start, Option::<i32>::None, Seq::<Symbol>::empty()));
}

/// A step of the search keeps the puzzle's symbols: when every entry of the
/// stack keeps the symbols of `start`, so does every entry after the step,
/// and so does a grid the step finds. A grid found from the start keeps
/// every symbol the puzzle gave.
pub proof fn lemma_step_keeps_givens(
    frames: Seq<(Map<i32, Symbol>, Option<i32>, Seq<Symbol>)>,
    n: int,
    order: Seq<i32>,
    start: Map<i32, Symbol>,
)
    requires
        0 < n,
        n * n <= i32::MAX,
        frames.len() > 0,
        entries_keep(frames, start, n),
    ensures
        entries_keep(after_step(frames, n, order).0, start, n),
        after_step(frames, n, order).1 matches Some(g) ==> extends(g, start, n),
{
    let stack = after_step(frames, n, order).0;
    let top = frames.last();
    let rest = frames.drop_last();
    lemma_step_keeps_lower_entries(frames, n, order);
    assert(extends(top.0, start, n));
    let cur = propagation(top.0, n);
    lemma_propagation_ends(top.0, n);
    assert forall|id: int| 0 <= id < n * n && !is_blank(start, id) implies #[trigger] sym(cur, id) == sym(start, id) by {
        assert(sym(top.0, id) == sym(start, id));
        lemma_propagation_keeps_filled(top.0, n, cur, id);
    }
    assert(extends(cur, start, n));
    let k = choose|k: nat|
        #![trigger sweeps(top.0, n, k)]
        cur == sweeps(top.0, n, k) && full_sweep(cur, n) == cur && forall|j: nat|
            j < k ==> #[trigger] sweeps(top.0, n, j) != sweeps(top.0, n, j + 1);
    assert(full_sweep(cur, n) == cur);
    if top.2.len() > 0 {
        assert(sweeps(top.0, n, 0) == top.0);
        assert(propagated(top.0, n, top.0));
        lemma_propagation(top.0, n, top.0);
        assert(cur == top.0);
    }
    if !impossible(cur, n) && !all_filled(cur) {
        let c: i32 = if top.2.len() > 0 {
            top.1.unwrap()
        } else {
            lemma_chosen_cell_from(cur, n, order, 0, None, usize::MAX as int, 0);
            chosen_cell(cur, n, order).unwrap_or(0)
        };
        if top.2.len() > 0 || chosen_cell(cur, n, order) is Some {
            assert(is_blank(cur, c as int));
            assert forall|x: Symbol| #![trigger cur.insert(c, x)] extends(cur.insert(c, x), start, n) by {
                assert forall|id: int| 0 <= id < n * n && !is_blank(start, id) implies #[trigger] sym(
                    cur.insert(c, x),
                    id,
                ) == sym(start, id) by {
                    assert(sym(cur, id) == sym(start, id));
                    assert(id != c as int);
                    assert(sym(cur.insert(c, x), id) == sym(cur, id));
                }
            }
        }
    }
    assert forall|i: int| 0 <= i < stack.len() implies {
        let f = #[trigger] stack[i];
        &&& extends(f.0, start, n)
        &&& f.2.len() > 0 ==> f.1 is Some && is_blank(f.0, f.1.unwrap() as int) && full_sweep(f.0, n) == f.0
    } by {
        if i < frames.len() - 1 {
            assert(stack[i] == frames[i]);
        }
    }
}

/// A step of the search keeps every entry inside the grid: when every
/// entry holds the cells of the grid and `order` names cells of the grid
/// only, so does every entry after the step.
pub proof fn lemma_step_keeps_entries_in_grid(
    frames: Seq<(Map<i32, Symbol>, Option<i32>, Seq<Symbol>)>,
    n: int,
    order: Seq<i32>,
)
    requires
        0 < n,
        n * n <= i32::MAX,
        frames.len() > 0,
        entries_in_grid(frames, n),
        forall|k: int| 0 <= k < order.len() ==> 0 <= #[trigger] order[k] < n * n,
    ensures
        entries_in_grid(after_step(frames, n, order).0, n),
{
    let stack = after_step(frames, n, order).0;
    let top = frames.last();
    let rest = frames.drop_last();
    lemma_step_keeps_lower_entries(frames, n, order);
    assert(holds_grid(top.0, n));
    let cur = propagation(top.0, n);
    lemma_propagation_keeps_cells(top.0, n);
    if !impossible(cur, n) && !all_filled(cur) {
        if top.2.len() > 0 {
            lemma_fill_keeps_grid(cur, top.1.unwrap(), top.2.last(), n);
        } else if let Some(c) = chosen_cell(cur, n, order) {
            lemma_chosen_cell_from(cur, n, order, 0, None, usize::MAX as int, 0);
            let j = choose|j: int| 0 <= j < order.len() && order[j] == c;
            let options = valid_symbols(cur, n, c as int);
            if options.len() > 0 {
                lemma_fill_keeps_grid(cur, c, options.last(), n);
            }
        }
    }
    assert forall|i: int| 0 <= i < stack.len() implies {
        let f = #[trigger] stack[i];
        &&& holds_grid(f.0, n)
        &&& f.2.len() > 0 ==> f.1 is Some && 0 <= f.1.unwrap() < n * n
    } by {
        if i < frames.len() - 1 {
            assert(stack[i] == frames[i]);
        }
    }
}

/// A pair found for a new mark is not among the pairs already checked,
/// both its cells exist, the first holds a symbol, and the pair's symbol
/// and mark follow the two cells' symbols.
proof fn lemma_drawn_pair_well(
    n: int,
    level: Level,
    checked: Seq<(i32, i32)>,
    ids: Seq<i32>,
    constraint: Constraint,
    directions: Seq<ConstraintDirection>,
    i: int,
)
    requires
        0 < n,
        n * n <= i32::MAX,
        directions.len() == ids.len(),
        forall|k: int| 0 <= k < ids.len() ==> 0 <= #[trigger] ids[k] < n * n,
        0 <= i,
        pair_from(n, level, checked, ids, constraint, directions, i) is Some,
    ensures
        ({
            let p = pair_from(n, level, checked, ids, constraint, directions, i).unwrap();
            let m1 = first_mark(p.0, p.1, n);
            &&& !checked.contains(p.0)
            &&& level.cell_at(p.0.0 as int) is Some
            &&& level.cell_at(p.0.1 as int) is Some
            &&& level.cell_at(p.0.0 as int).unwrap().symbol != Symbol::Empty
            &&& (m1.constraint == Constraint::Equal <==> level.cell_at(p.0.0 as int).unwrap().symbol
                == level.cell_at(p.0.1 as int).unwrap().symbol)
            &&& (p.1 != Symbol::Empty ==> p.1 == level.cell_at(p.0.0 as int).unwrap().symbol)
        }),
    decreases ids.len() - i,
{
    let id1 = ids[i];
    let d = directions[i];
    let t = neighbour(id1 as int, n, d).unwrap();
    crate::rules::lemma_grid_width_bound(n);
    assert(n * n + n <= i32::MAX) by (nonlinear_arith)
        requires
            0 < n <= 46340,
    ;
    assert(i32::MIN <= t <= i32::MAX);
    match (level.cell_at(id1 as int), level.cell_at(t)) {
        (Some(c1), Some(c2)) => {
            let pair = (id1, t as i32);
            if !(constraint == Constraint::Equal && c1.symbol != Symbol::Empty && c1.symbol == c2.symbol
                && !checked.contains(pair)) && !(constraint == Constraint::NonEqual && c1.symbol != Symbol::Empty
                && c1.symbol != c2.symbol && !checked.contains(pair)) {
                lemma_drawn_pair_well(n, level, checked, ids, constraint, directions, i + 1);
            }
        },
        _ => {},
    }
}

/// A pair chosen for a new mark is two cells of the grid side by side or
/// one above the other; the mark on the first faces the second and the
/// mark on the second faces the first.
pub proof fn lemma_chosen_pair_marks_face_each_other(
    n: int,
    level: Level,
    checked: Seq<(i32, i32)>,
    ids: Seq<i32>,
    constraint: Constraint,
    directions: Seq<ConstraintDirection>,
    i: int,
)
    requires
        0 < n,
        n * n <= i32::MAX,
        directions.len() == ids.len(),
        0 <= i,
        forall|k: int| 0 <= k < ids.len() ==> 0 <= #[trigger] ids[k] < n * n,
        pair_from(n, level, checked, ids, constraint, directions, i) is Some,
    ensures
        ({
            let ((a, b), s) = pair_from(n, level, checked, ids, constraint, directions, i).unwrap();
            let m1 = first_mark((a, b), s, n);
            &&& 0 <= a < n * n
            &&& 0 <= b < n * n
            &&& neighbour(a as int, n, m1.constraint_direction) == Some(b as int)
            &&& neighbour(b as int, n, mirror_mark(m1).constraint_direction) == Some(a as int)
            &&& mirror_mark(m1).constraint == m1.constraint
            &&& trunc_div(a as int, n) == trunc_div(b as int, n) || trunc_rem(a as int, n) == trunc_rem(b as int, n)
        }),
    decreases ids.len() - i,
{
    let id1 = ids[i];
    let d = directions[i];
    let t = neighbour(id1 as int, n, d).unwrap();
    match (level.cell_at(id1 as int), level.cell_at(t)) {
        (Some(c1), Some(c2)) => {
            let pair = (id1, t as i32);
            if (constraint == Constraint::Equal && c1.symbol != Symbol::Empty && c1.symbol == c2.symbol && !checked.contains(pair))
                || (constraint == Constraint::NonEqual && c1.symbol != Symbol::Empty && c1.symbol != c2.symbol
                && !checked.contains(pair)) {
                crate::rules::lemma_id_coords(n, id1 as int);
                let row = (id1 as int) / n;
                let col = (id1 as int) % n;
                assert(row * n + n <= n * n) by (nonlinear_arith)
                    requires
                        row < n,
                        0 < n,
                ;
                assert(id1 as int == row * n + col);
                assert(trunc_div(id1 as int, n) == row && trunc_rem(id1 as int, n) == col);
                if d == ConstraintDirection::Top {
                    assert(row >= 1 && n >= 2);
                    assert(0 <= t && t / n == row - 1 && t % n == col) by (nonlinear_arith)
                        requires
                            t == row * n + col - n,
                            0 <= col < n,
                            row >= 1,
                    ;
                } else if d == ConstraintDirection::Bot {
                    assert(row < n - 1 && n >= 2);
                    assert(t < n * n && t / n == row + 1 && t % n == col) by (nonlinear_arith)
                        requires
                            t == row * n + col + n,
                            0 <= col < n,
                            0 <= row < n - 1,
                    ;
                } else if d == ConstraintDirection::Right {
                    assert(col < n - 1 && n >= 2);
                    assert(t / n == row && t % n == col + 1) by (nonlinear_arith)
                        requires
                            t == row * n + col + 1,
                            0 <= col < n - 1,
                            row >= 0,
                    ;
                } else {
                    assert(col >= 1 && n >= 2);
                    assert(t / n == row && t % n == col - 1) by (nonlinear_arith)
                        requires
                            t == row * n + col - 1,
                            0 < col < n,
                            row >= 0,
                    ;
                }
            } else {
                lemma_chosen_pair_marks_face_each_other(n, level, checked, ids, constraint, directions, i + 1);
            }
        },
        _ => {},
    }
}

} // verus!
