//! The puzzle's rules as spec functions over a map from cell id to symbol.

use vstd::prelude::*;
use crate::grid_cell::Symbol;

verus! {

/// The symbol stored for `id`, if the map holds that id.
pub open spec fn sym(m: Map<i32, Symbol>, id: int) -> Option<Symbol> {
    if i32::MIN <= id <= i32::MAX && m.contains_key(id as i32) {
        Some(m[id as i32])
    } else {
        None
    }
}

/// A cell that holds no symbol: absent from the map or holding `Symbol::Empty`.
pub open spec fn is_blank(m: Map<i32, Symbol>, id: int) -> bool {
    sym(m, id) is None || sym(m, id) == Some(Symbol::Empty)
}

/// The id of the cell in `row` and `col` of an `n`-wide grid.
pub open spec fn cell_id(n: int, row: int, col: int) -> int {
    row * n + col
}

/// How many of the first `k` cells of `row` hold `s`.
pub open spec fn count_row_prefix(m: Map<i32, Symbol>, n: int, row: int, s: Symbol, k: nat) -> int
    decreases k,
{
    if k == 0 {
        0
    } else {
        count_row_prefix(m, n, row, s, (k - 1) as nat)
            + if sym(m, cell_id(n, row, k - 1)) == Some(s) { 1int } else { 0int }
    }
}

/// How many of the first `k` cells of `col` hold `s`.
pub open spec fn count_col_prefix(m: Map<i32, Symbol>, n: int, col: int, s: Symbol, k: nat) -> int
    decreases k,
{
    if k == 0 {
        0
    } else {
        count_col_prefix(m, n, col, s, (k - 1) as nat)
            + if sym(m, cell_id(n, k - 1, col)) == Some(s) { 1int } else { 0int }
    }
}

/// How many cells of `row` hold `s`.
pub open spec fn count_row(m: Map<i32, Symbol>, n: int, row: int, s: Symbol) -> int {
    if n <= 0 { 0 } else { count_row_prefix(m, n, row, s, n as nat) }
}

/// How many cells of `col` hold `s`.
pub open spec fn count_col(m: Map<i32, Symbol>, n: int, col: int, s: Symbol) -> int {
    if n <= 0 { 0 } else { count_col_prefix(m, n, col, s, n as nat) }
}

/// Half the grid width: how many of each symbol a full row or column holds.
pub open spec fn half(n: int) -> int {
    n / 2
}

/// Both cells hold `s`.
pub open spec fn both_hold(m: Map<i32, Symbol>, a: int, b: int, s: Symbol) -> bool {
    sym(m, a) == Some(s) && sym(m, b) == Some(s)
}

/// Putting `s` at `row`, `col` would make three equal symbols in the row:
/// the cell would end, sit in the middle of, or start such a run.
pub open spec fn would_make_three_across(m: Map<i32, Symbol>, n: int, row: int, col: int, s: Symbol) -> bool {
    ||| col >= 2 && both_hold(m, cell_id(n, row, col - 1), cell_id(n, row, col - 2), s)
    ||| col >= 1 && col < n - 1 && both_hold(m, cell_id(n, row, col - 1), cell_id(n, row, col + 1), s)
    ||| col <= n - 3 && both_hold(m, cell_id(n, row, col + 1), cell_id(n, row, col + 2), s)
}

/// Putting `s` at `row`, `col` would make three equal symbols in the column.
pub open spec fn would_make_three_down(m: Map<i32, Symbol>, n: int, row: int, col: int, s: Symbol) -> bool {
    ||| row >= 2 && both_hold(m, cell_id(n, row - 1, col), cell_id(n, row - 2, col), s)
    ||| row >= 1 && row < n - 1 && both_hold(m, cell_id(n, row - 1, col), cell_id(n, row + 1, col), s)
    ||| row <= n - 3 && both_hold(m, cell_id(n, row + 1, col), cell_id(n, row + 2, col), s)
}

/// Putting `s` at `row`, `col` would make three equal symbols in a line.
pub open spec fn would_make_three(m: Map<i32, Symbol>, n: int, row: int, col: int, s: Symbol) -> bool {
    would_make_three_across(m, n, row, col, s) || would_make_three_down(m, n, row, col, s)
}

/// `s` may go into cell `id`: it makes no run of three, and its row and its
/// column each hold fewer than half the width of `s` already.
pub open spec fn placement_ok(m: Map<i32, Symbol>, n: int, id: int, s: Symbol) -> bool {
    &&& !would_make_three(m, n, id / n, id % n, s)
    &&& count_row(m, n, id / n, s) < half(n)
    &&& count_col(m, n, id % n, s) < half(n)
}

/// The symbols that may go into cell `id`, `X` before `Y`.
pub open spec fn valid_symbols(m: Map<i32, Symbol>, n: int, id: int) -> Seq<Symbol> {
    (if placement_ok(m, n, id, Symbol::X) { seq![Symbol::X] } else { Seq::empty() })
        + (if placement_ok(m, n, id, Symbol::Y) { seq![Symbol::Y] } else { Seq::empty() })
}

/// The symbol cell `id` must take because the other one is ruled out, if
/// exactly one is ruled out.
pub open spec fn forced_symbol(m: Map<i32, Symbol>, n: int, id: int) -> Option<Symbol> {
    let x_out = !placement_ok(m, n, id, Symbol::X);
    let y_out = !placement_ok(m, n, id, Symbol::Y);
    if x_out && !y_out {
        Some(Symbol::Y)
    } else if !x_out && y_out {
        Some(Symbol::X)
    } else {
        None
    }
}

/// The three cells hold one and the same symbol, not `Empty`.
pub open spec fn same_three(m: Map<i32, Symbol>, a: int, b: int, c: int) -> bool {
    &&& sym(m, a) is Some
    &&& sym(m, a) != Some(Symbol::Empty)
    &&& sym(m, b) == sym(m, a)
    &&& sym(m, c) == sym(m, a)
}

/// A run of three equal symbols starts at `row`, `col` and goes right.
pub open spec fn three_across(m: Map<i32, Symbol>, n: int, row: int, col: int) -> bool {
    same_three(m, cell_id(n, row, col), cell_id(n, row, col + 1), cell_id(n, row, col + 2))
}

/// A run of three equal symbols starts at `row`, `col` and goes down.
pub open spec fn three_down(m: Map<i32, Symbol>, n: int, row: int, col: int) -> bool {
    same_three(m, cell_id(n, row, col), cell_id(n, row + 1, col), cell_id(n, row + 2, col))
}

/// Some row or column of the grid holds three equal symbols in a run.
pub open spec fn has_three(m: Map<i32, Symbol>, n: int) -> bool {
    ||| exists|row: int, col: int| 0 <= row < n && 0 <= col <= n - 3 && #[trigger] three_across(m, n, row, col)
    ||| exists|row: int, col: int| 0 <= col < n && 0 <= row <= n - 3 && #[trigger] three_down(m, n, row, col)
}

/// Row `row` holds exactly half the width of `X` and of `Y`.
pub open spec fn row_balanced(m: Map<i32, Symbol>, n: int, row: int) -> bool {
    count_row(m, n, row, Symbol::X) == half(n) && count_row(m, n, row, Symbol::Y) == half(n)
}

/// Column `col` holds exactly half the width of `X` and of `Y`.
pub open spec fn col_balanced(m: Map<i32, Symbol>, n: int, col: int) -> bool {
    count_col(m, n, col, Symbol::X) == half(n) && count_col(m, n, col, Symbol::Y) == half(n)
}

/// Every row and every column holds exactly half the width of `X` and of
/// `Y`, and no run of three equal symbols exists.
pub open spec fn valid_solution(m: Map<i32, Symbol>, n: int) -> bool {
    &&& forall|row: int| 0 <= row < n ==> #[trigger] row_balanced(m, n, row)
    &&& forall|col: int| 0 <= col < n ==> #[trigger] col_balanced(m, n, col)
    &&& !has_three(m, n)
}

/// No cell the map holds is `Empty`.
pub open spec fn all_filled(m: Map<i32, Symbol>) -> bool {
    forall|k: i32| m.contains_key(k) ==> m[k] != Symbol::Empty
}

/// Row or column `i` holds more than half the width of one symbol.
pub open spec fn line_overfull(m: Map<i32, Symbol>, n: int, i: int) -> bool {
    ||| count_row(m, n, i, Symbol::X) > half(n)
    ||| count_row(m, n, i, Symbol::Y) > half(n)
    ||| count_col(m, n, i, Symbol::X) > half(n)
    ||| count_col(m, n, i, Symbol::Y) > half(n)
}

/// The grid cannot be completed: a line holds too many of a symbol, a run
/// of three exists, or a blank cell can take neither symbol.
pub open spec fn impossible(m: Map<i32, Symbol>, n: int) -> bool {
    ||| exists|i: int| 0 <= i < n && #[trigger] line_overfull(m, n, i)
    ||| has_three(m, n)
    ||| exists|id: int| 0 <= id < n * n && is_blank(m, id) && #[trigger] valid_symbols(m, n, id).len() == 0
}

/// A grid in which some row or column holds more than half the width of
/// either symbol, `X` or `Y`, cannot be completed.
pub proof fn lemma_overfull_line_is_impossible(m: Map<i32, Symbol>, n: int, i: int, s: Symbol, is_row: bool)
    requires
        0 <= i < n,
        s == Symbol::X || s == Symbol::Y,
        (if is_row { count_row(m, n, i, s) } else { count_col(m, n, i, s) }) > half(n),
    ensures
        impossible(m, n),
{
    assert(line_overfull(m, n, i));
}

/// How close a row (`is_row`) or column is to its symbol limits: the `X`
/// it holds plus the `Y` it holds, each counted up to its limit of half
/// the width. The nearer the line is to its limits, the higher.
pub open spec fn pressure(m: Map<i32, Symbol>, n: int, index: int, is_row: bool) -> int {
    let x = if is_row { count_row(m, n, index, Symbol::X) } else { count_col(m, n, index, Symbol::X) };
    let y = if is_row { count_row(m, n, index, Symbol::Y) } else { count_col(m, n, index, Symbol::Y) };
    let h = half(n);
    (if x < h { x } else { h }) + (if y < h { y } else { h })
}

/// The pressure of the row plus that of the column of cell `id`.
pub open spec fn cell_pressure(m: Map<i32, Symbol>, n: int, id: int) -> int {
    pressure(m, n, id / n, true) + pressure(m, n, id % n, false)
}

/// The cell chosen from `order[i..]`, given the choice so far: the first
/// blank cell with a single valid symbol wins at once; otherwise a blank
/// cell with fewer valid symbols than the choice so far, or as many and a
/// higher pressure, replaces it. Blank cells with no valid symbol are passed.
pub open spec fn chosen_cell_from(
    m: Map<i32, Symbol>,
    n: int,
    order: Seq<i32>,
    i: int,
    best: Option<i32>,
    min_options: int,
    max_pressure: int,
) -> Option<i32>
    decreases order.len() - i,
{
    if i < 0 || i >= order.len() {
        best
    } else {
        let id = order[i];
        let options = valid_symbols(m, n, id as int).len() as int;
        if is_blank(m, id as int) && options != 0 {
            if options == 1 {
                Some(id)
            } else {
                let p = cell_pressure(m, n, id as int);
                if options < min_options || (options == min_options && p > max_pressure) {
                    chosen_cell_from(m, n, order, i + 1, Some(id), options, p)
                } else {
                    chosen_cell_from(m, n, order, i + 1, best, min_options, max_pressure)
                }
            }
        } else {
            chosen_cell_from(m, n, order, i + 1, best, min_options, max_pressure)
        }
    }
}

/// The cell the solver fills next when it visits the cells in `order`.
pub open spec fn chosen_cell(m: Map<i32, Symbol>, n: int, order: Seq<i32>) -> Option<i32> {
    chosen_cell_from(m, n, order, 0, None, usize::MAX as int, 0)
}

/// The grid after one pass over the cell ids `0 .. k` in order, in which
/// each blank cell takes the symbol it is forced to take in the grid as the
/// pass has left it so far.
pub open spec fn sweep(m: Map<i32, Symbol>, n: int, k: nat) -> Map<i32, Symbol>
    decreases k,
{
    if k == 0 {
        m
    } else {
        let prev = sweep(m, n, (k - 1) as nat);
        let id = k - 1;
        if is_blank(prev, id) && forced_symbol(prev, n, id) is Some {
            prev.insert(id as i32, forced_symbol(prev, n, id).unwrap())
        } else {
            prev
        }
    }
}

/// The grid after one pass over all cells of an `n`-wide grid.
pub open spec fn full_sweep(m: Map<i32, Symbol>, n: int) -> Map<i32, Symbol> {
    sweep(m, n, (n * n) as nat)
}

/// The grid after `k` full passes.
pub open spec fn sweeps(m: Map<i32, Symbol>, n: int, k: nat) -> Map<i32, Symbol>
    decreases k,
{
    if k == 0 {
        m
    } else {
        full_sweep(sweeps(m, n, (k - 1) as nat), n)
    }
}

/// `r` is what repeated full passes over `m` reach when a pass first
/// changes nothing.
pub open spec fn propagated(m: Map<i32, Symbol>, n: int, r: Map<i32, Symbol>) -> bool {
    exists|k: nat|
        #![trigger sweeps(m, n, k)]
        r == sweeps(m, n, k) && full_sweep(r, n) == r && forall|j: nat|
            j < k ==> #[trigger] sweeps(m, n, j) != sweeps(m, n, j + 1)
}

/// How many of the cells `0 .. k` are blank.
pub open spec fn blank_count(m: Map<i32, Symbol>, k: nat) -> int
    decreases k,
{
    if k == 0 {
        0
    } else {
        blank_count(m, (k - 1) as nat) + if is_blank(m, k - 1) { 1int } else { 0int }
    }
}

/// The cells `0 .. k` hold between none and `k` blank cells.
pub proof fn lemma_blank_count_bounds(m: Map<i32, Symbol>, k: nat)
    ensures
        0 <= blank_count(m, k) <= k,
    decreases k,
{
    if k > 0 {
        lemma_blank_count_bounds(m, (k - 1) as nat);
    }
}

/// Filling a blank cell below `k` with a symbol leaves one blank cell fewer.
pub proof fn lemma_blank_count_fill(m: Map<i32, Symbol>, k: nat, id: int, s: Symbol)
    requires
        0 <= id < k,
        k <= i32::MAX,
        is_blank(m, id),
        s != Symbol::Empty,
    ensures
        blank_count(m.insert(id as i32, s), k) == blank_count(m, k) - 1,
    decreases k,
{
    let m2 = m.insert(id as i32, s);
    if id < k - 1 {
        lemma_blank_count_fill(m, (k - 1) as nat, id, s);
        assert(sym(m2, k - 1) == sym(m, k - 1));
    } else {
        lemma_blank_count_same_below(m, m2, (k - 1) as nat, id);
        assert(sym(m2, id) == Some(s));
    }
}

/// Maps that agree on the cells below `k` have as many blank cells there.
proof fn lemma_blank_count_same_below(m: Map<i32, Symbol>, m2: Map<i32, Symbol>, k: nat, id: int)
    requires
        k <= id,
        0 <= id <= i32::MAX,
        forall|j: int| 0 <= j < id ==> sym(m2, j) == sym(m, j),
    ensures
        blank_count(m2, k) == blank_count(m, k),
    decreases k,
{
    if k > 0 {
        lemma_blank_count_same_below(m, m2, (k - 1) as nat, id);
    }
}

/// The grid that propagation reaches from `m`.
pub open spec fn propagation(m: Map<i32, Symbol>, n: int) -> Map<i32, Symbol> {
    choose|r: Map<i32, Symbol>| propagated(m, n, r)
}

/// Propagation reaches one grid only.
pub proof fn lemma_propagated_unique(m: Map<i32, Symbol>, n: int, r1: Map<i32, Symbol>, r2: Map<i32, Symbol>)
    requires
        propagated(m, n, r1),
        propagated(m, n, r2),
    ensures
        r1 == r2,
{
    let k1 = choose|k: nat|
        #![trigger sweeps(m, n, k)]
        r1 == sweeps(m, n, k) && full_sweep(r1, n) == r1 && forall|j: nat|
            j < k ==> #[trigger] sweeps(m, n, j) != sweeps(m, n, j + 1);
    let k2 = choose|k: nat|
        #![trigger sweeps(m, n, k)]
        r2 == sweeps(m, n, k) && full_sweep(r2, n) == r2 && forall|j: nat|
            j < k ==> #[trigger] sweeps(m, n, j) != sweeps(m, n, j + 1);
    if k1 < k2 {
        assert(sweeps(m, n, k1 + 1) == full_sweep(sweeps(m, n, k1), n));
        assert(sweeps(m, n, k1) != sweeps(m, n, k1 + 1));
    } else if k2 < k1 {
        assert(sweeps(m, n, k2 + 1) == full_sweep(sweeps(m, n, k2), n));
        assert(sweeps(m, n, k2) != sweeps(m, n, k2 + 1));
    }
}

/// The grid reached by propagation is the one `propagation` names.
pub proof fn lemma_propagation(m: Map<i32, Symbol>, n: int, r: Map<i32, Symbol>)
    requires
        propagated(m, n, r),
    ensures
        propagation(m, n) == r,
{
    lemma_propagated_unique(m, n, r, propagation(m, n));
}

/// The chosen cell is the choice handed in or a cell of `order[i..]` that is
/// blank and has a valid symbol.
pub proof fn lemma_chosen_cell_from(
    m: Map<i32, Symbol>,
    n: int,
    order: Seq<i32>,
    i: int,
    best: Option<i32>,
    min_options: int,
    max_pressure: int,
)
    requires
        0 <= i,
    ensures
        chosen_cell_from(m, n, order, i, best, min_options, max_pressure) matches Some(c) ==> (
            best == Some(c) || (exists|j: int| i <= j < order.len() && order[j] == c) && is_blank(m, c as int)
                && valid_symbols(m, n, c as int).len() > 0),
    decreases order.len() - i,
{
    if i < order.len() {
        let id = order[i];
        let options = valid_symbols(m, n, id as int).len() as int;
        if is_blank(m, id as int) && options != 0 {
            if options != 1 {
                let p = cell_pressure(m, n, id as int);
                if options < min_options || (options == min_options && p > max_pressure) {
                    lemma_chosen_cell_from(m, n, order, i + 1, Some(id), options, p);
                } else {
                    lemma_chosen_cell_from(m, n, order, i + 1, best, min_options, max_pressure);
                }
            }
        } else {
            lemma_chosen_cell_from(m, n, order, i + 1, best, min_options, max_pressure);
        }
    }
}

/// The first `k` cells of a row hold between none and `k` of a symbol.
pub proof fn lemma_count_row_prefix_bounds(m: Map<i32, Symbol>, n: int, row: int, s: Symbol, k: nat)
    ensures
        0 <= count_row_prefix(m, n, row, s, k) <= k,
    decreases k,
{
    if k > 0 {
        lemma_count_row_prefix_bounds(m, n, row, s, (k - 1) as nat);
    }
}

/// The first `k` cells of a column hold between none and `k` of a symbol.
pub proof fn lemma_count_col_prefix_bounds(m: Map<i32, Symbol>, n: int, col: int, s: Symbol, k: nat)
    ensures
        0 <= count_col_prefix(m, n, col, s, k) <= k,
    decreases k,
{
    if k > 0 {
        lemma_count_col_prefix_bounds(m, n, col, s, (k - 1) as nat);
    }
}

/// A grid whose cell ids fit in an `i32` is at most 46340 cells wide.
pub proof fn lemma_grid_width_bound(n: int)
    requires
        0 < n,
        n * n <= i32::MAX,
    ensures
        n <= 46340,
{
    if n > 46340 {
        assert(n * n >= 46341 * 46341) by (nonlinear_arith)
            requires
                n > 46340,
        ;
    }
}

/// Cells `0 <= row, col < n` of an `n`-wide grid have ids in `0 .. n * n`.
pub proof fn lemma_cell_id_in_grid(n: int, row: int, col: int)
    requires
        0 <= row < n,
        0 <= col < n,
    ensures
        0 <= cell_id(n, row, col) < n * n,
        cell_id(n, row, col) <= cell_id(n, n - 1, n - 1),
{
    assert(0 <= row * n) by (nonlinear_arith)
        requires
            0 <= row,
            0 < n,
    ;
    assert(row * n + col < n * n) by (nonlinear_arith)
        requires
            0 <= row < n,
            0 <= col < n,
    ;
    assert(row * n <= (n - 1) * n) by (nonlinear_arith)
        requires
            0 <= row < n,
    ;
}

/// The ids of the cells of a row or a column inside the grid fit in an
/// `i32` when the grid's ids do.
pub proof fn lemma_line_ids_fit(n: int, i: int)
    requires
        0 < n,
        n * n <= i32::MAX,
        0 <= i < n,
    ensures
        0 <= i * n,
        i * n + n - 1 <= i32::MAX,
        (n - 1) * n + i <= i32::MAX,
{
    assert(0 <= i * n && i * n + n <= n * n) by (nonlinear_arith)
        requires
            0 <= i < n,
    ;
    assert((n - 1) * n + n == n * n) by (nonlinear_arith);
}

/// An id in `0 .. n * n` splits into a row and a column inside the grid.
pub proof fn lemma_id_coords(n: int, id: int)
    requires
        0 < n,
        0 <= id < n * n,
    ensures
        0 <= id / n < n,
        0 <= id % n < n,
        cell_id(n, id / n, id % n) == id,
{
    assert(id == n * (id / n) + id % n) by (nonlinear_arith)
        requires
            0 < n,
    ;
    assert(id / n < n) by (nonlinear_arith)
        requires
            0 < n,
            0 <= id < n * n,
    ;
    assert(0 <= id / n) by (nonlinear_arith)
        requires
            0 < n,
            0 <= id,
    ;
    assert(cell_id(n, id / n, id % n) == id) by (nonlinear_arith)
        requires
            id == n * (id / n) + id % n,
    ;
}


/// `s` keeps every symbol `m` has on the cells of an `n`-wide grid.
pub open spec fn extends(s: Map<i32, Symbol>, m: Map<i32, Symbol>, n: int) -> bool {
    forall|id: int| 0 <= id < n * n && !is_blank(m, id) ==> #[trigger] sym(s, id) == sym(m, id)
}

/// No cell of the `n`-wide grid is blank in `s`.
pub open spec fn complete(s: Map<i32, Symbol>, n: int) -> bool {
    forall|id: int| 0 <= id < n * n ==> !#[trigger] is_blank(s, id)
}

/// `s` is a solution of the puzzle `m`: it keeps `m`'s symbols, fills
/// every cell and keeps every rule.
pub open spec fn solves(s: Map<i32, Symbol>, m: Map<i32, Symbol>, n: int) -> bool {
    extends(s, m, n) && complete(s, n) && valid_solution(s, n)
}

/// Two cells of the grid with the same id are the same cell.
proof fn lemma_cell_id_unique(n: int, r1: int, c1: int, r2: int, c2: int)
    requires
        0 < n,
        0 <= c1 < n,
        0 <= c2 < n,
        cell_id(n, r1, c1) == cell_id(n, r2, c2),
    ensures
        r1 == r2,
        c1 == c2,
{
    assert(r1 == r2) by (nonlinear_arith)
        requires
            0 < n,
            0 <= c1 < n,
            0 <= c2 < n,
            r1 * n + c1 == r2 * n + c2,
    {
        if r1 < r2 {
            assert(r1 * n + n <= r2 * n) by (nonlinear_arith)
                requires
                    r1 < r2,
                    0 < n,
            ;
        } else if r1 > r2 {
            assert(r2 * n + n <= r1 * n) by (nonlinear_arith)
                requires
                    r2 < r1,
                    0 < n,
            ;
        }
    }
}

/// A solution holds at least as many of a symbol in the first `k` cells of
/// a row as the puzzle, and one more for cell `c0` if the puzzle leaves it
/// blank and the solution puts the symbol there.
proof fn lemma_count_row_grows(s: Map<i32, Symbol>, m: Map<i32, Symbol>, n: int, row: int, x: Symbol, k: nat, c0: int)
    requires
        extends(s, m, n),
        x != Symbol::Empty,
        0 <= row < n,
        k <= n,
    ensures
        count_row_prefix(s, n, row, x, k) >= count_row_prefix(m, n, row, x, k) + if 0 <= c0 < k && is_blank(
            m,
            cell_id(n, row, c0),
        ) && sym(s, cell_id(n, row, c0)) == Some(x) {
            1int
        } else {
            0int
        },
    decreases k,
{
    if k > 0 {
        lemma_count_row_grows(s, m, n, row, x, (k - 1) as nat, c0);
        let id = cell_id(n, row, k - 1);
        lemma_cell_id_in_grid(n, row, k - 1);
        if !is_blank(m, id) {
            assert(sym(s, id) == sym(m, id));
        }
    }
}

/// The same for the first `k` cells of a column.
proof fn lemma_count_col_grows(s: Map<i32, Symbol>, m: Map<i32, Symbol>, n: int, col: int, x: Symbol, k: nat, r0: int)
    requires
        extends(s, m, n),
        x != Symbol::Empty,
        0 <= col < n,
        k <= n,
    ensures
        count_col_prefix(s, n, col, x, k) >= count_col_prefix(m, n, col, x, k) + if 0 <= r0 < k && is_blank(
            m,
            cell_id(n, r0, col),
        ) && sym(s, cell_id(n, r0, col)) == Some(x) {
            1int
        } else {
            0int
        },
    decreases k,
{
    if k > 0 {
        lemma_count_col_grows(s, m, n, col, x, (k - 1) as nat, r0);
        let id = cell_id(n, k - 1, col);
        lemma_cell_id_in_grid(n, k - 1, col);
        if !is_blank(m, id) {
            assert(sym(s, id) == sym(m, id));
        }
    }
}

/// Two cells of the grid that hold `x` in the puzzle hold it in a solution.
proof fn lemma_pair_kept(s: Map<i32, Symbol>, m: Map<i32, Symbol>, n: int, a: int, b: int, x: Symbol)
    requires
        extends(s, m, n),
        x != Symbol::Empty,
        0 <= a < n * n,
        0 <= b < n * n,
        both_hold(m, a, b, x),
    ensures
        both_hold(s, a, b, x),
{
    assert(sym(s, a) == sym(m, a));
    assert(sym(s, b) == sym(m, b));
}

/// A symbol that breaks a rule in a blank cell of the puzzle is not the
/// one a solution puts there.
pub proof fn lemma_ruled_out_not_in_solution(s: Map<i32, Symbol>, m: Map<i32, Symbol>, n: int, id: int, x: Symbol)
    requires
        solves(s, m, n),
        0 < n,
        0 <= id < n * n,
        is_blank(m, id),
        x != Symbol::Empty,
        !placement_ok(m, n, id, x),
    ensures
        sym(s, id) != Some(x),
{
    lemma_id_coords(n, id);
    let row = id / n;
    let col = id % n;
    if sym(s, id) == Some(x) {
        if would_make_three(m, n, row, col, x) {
            if col >= 2 && both_hold(m, cell_id(n, row, col - 1), cell_id(n, row, col - 2), x) {
                lemma_cell_id_in_grid(n, row, col - 1);
                lemma_cell_id_in_grid(n, row, col - 2);
                lemma_pair_kept(s, m, n, cell_id(n, row, col - 1), cell_id(n, row, col - 2), x);
                assert(three_across(s, n, row, col - 2));
            } else if col >= 1 && col < n - 1 && both_hold(m, cell_id(n, row, col - 1), cell_id(n, row, col + 1), x) {
                lemma_cell_id_in_grid(n, row, col - 1);
                lemma_cell_id_in_grid(n, row, col + 1);
                lemma_pair_kept(s, m, n, cell_id(n, row, col - 1), cell_id(n, row, col + 1), x);
                assert(three_across(s, n, row, col - 1));
            } else if col <= n - 3 && both_hold(m, cell_id(n, row, col + 1), cell_id(n, row, col + 2), x) {
                lemma_cell_id_in_grid(n, row, col + 1);
                lemma_cell_id_in_grid(n, row, col + 2);
                lemma_pair_kept(s, m, n, cell_id(n, row, col + 1), cell_id(n, row, col + 2), x);
                assert(three_across(s, n, row, col));
            } else if row >= 2 && both_hold(m, cell_id(n, row - 1, col), cell_id(n, row - 2, col), x) {
                lemma_cell_id_in_grid(n, row - 1, col);
                lemma_cell_id_in_grid(n, row - 2, col);
                lemma_pair_kept(s, m, n, cell_id(n, row - 1, col), cell_id(n, row - 2, col), x);
                assert(three_down(s, n, row - 2, col));
            } else if row >= 1 && row < n - 1 && both_hold(m, cell_id(n, row - 1, col), cell_id(n, row + 1, col), x) {
                lemma_cell_id_in_grid(n, row - 1, col);
                lemma_cell_id_in_grid(n, row + 1, col);
                lemma_pair_kept(s, m, n, cell_id(n, row - 1, col), cell_id(n, row + 1, col), x);
                assert(three_down(s, n, row - 1, col));
            } else {
                lemma_cell_id_in_grid(n, row + 1, col);
                lemma_cell_id_in_grid(n, row + 2, col);
                lemma_pair_kept(s, m, n, cell_id(n, row + 1, col), cell_id(n, row + 2, col), x);
                assert(three_down(s, n, row, col));
            }
        } else if count_row(m, n, row, x) >= half(n) {
            lemma_count_row_grows(s, m, n, row, x, n as nat, col);
            assert(row_balanced(s, n, row));
        } else {
            lemma_count_col_grows(s, m, n, col, x, n as nat, row);
            assert(col_balanced(s, n, col));
        }
    }
}

/// A blank cell that must take a symbol holds that symbol in every
/// solution.
pub proof fn lemma_forced_in_solution(s: Map<i32, Symbol>, m: Map<i32, Symbol>, n: int, id: int)
    requires
        solves(s, m, n),
        0 < n,
        0 <= id < n * n,
        is_blank(m, id),
        forced_symbol(m, n, id) is Some,
    ensures
        sym(s, id) == forced_symbol(m, n, id),
{
    assert(!is_blank(s, id));
    if forced_symbol(m, n, id) == Some(Symbol::Y) {
        lemma_ruled_out_not_in_solution(s, m, n, id, Symbol::X);
    } else {
        lemma_ruled_out_not_in_solution(s, m, n, id, Symbol::Y);
    }
}

/// A grid that the solver finds impossible has no solution.
pub proof fn lemma_impossible_has_no_solution(s: Map<i32, Symbol>, m: Map<i32, Symbol>, n: int)
    requires
        0 < n,
        impossible(m, n),
    ensures
        !solves(s, m, n),
{
    if solves(s, m, n) {
        if exists|i: int| 0 <= i < n && #[trigger] line_overfull(m, n, i) {
            let i = choose|i: int| 0 <= i < n && #[trigger] line_overfull(m, n, i);
            lemma_count_row_grows(s, m, n, i, Symbol::X, n as nat, -1);
            lemma_count_row_grows(s, m, n, i, Symbol::Y, n as nat, -1);
            lemma_count_col_grows(s, m, n, i, Symbol::X, n as nat, -1);
            lemma_count_col_grows(s, m, n, i, Symbol::Y, n as nat, -1);
            assert(row_balanced(s, n, i));
            assert(col_balanced(s, n, i));
        } else if has_three(m, n) {
            if exists|row: int, col: int| 0 <= row < n && 0 <= col <= n - 3 && #[trigger] three_across(m, n, row, col) {
                let (row, col) = choose|row: int, col: int| 0 <= row < n && 0 <= col <= n - 3 && #[trigger] three_across(m, n, row, col);
                lemma_cell_id_in_grid(n, row, col);
                lemma_cell_id_in_grid(n, row, col + 1);
                lemma_cell_id_in_grid(n, row, col + 2);
                assert(sym(s, cell_id(n, row, col)) == sym(m, cell_id(n, row, col)));
                assert(sym(s, cell_id(n, row, col + 1)) == sym(m, cell_id(n, row, col + 1)));
                assert(sym(s, cell_id(n, row, col + 2)) == sym(m, cell_id(n, row, col + 2)));
                assert(three_across(s, n, row, col));
            } else {
                let (row, col) = choose|row: int, col: int| 0 <= col < n && 0 <= row <= n - 3 && #[trigger] three_down(m, n, row, col);
                lemma_cell_id_in_grid(n, row, col);
                lemma_cell_id_in_grid(n, row + 1, col);
                lemma_cell_id_in_grid(n, row + 2, col);
                assert(sym(s, cell_id(n, row, col)) == sym(m, cell_id(n, row, col)));
                assert(sym(s, cell_id(n, row + 1, col)) == sym(m, cell_id(n, row + 1, col)));
                assert(sym(s, cell_id(n, row + 2, col)) == sym(m, cell_id(n, row + 2, col)));
                assert(three_down(s, n, row, col));
            }
        } else {
            let id = choose|id: int| 0 <= id < n * n && is_blank(m, id) && #[trigger] valid_symbols(m, n, id).len() == 0;
            assert(!placement_ok(m, n, id, Symbol::X)) by {
                if placement_ok(m, n, id, Symbol::X) {
                    assert(valid_symbols(m, n, id).len() > 0);
                }
            }
            assert(!placement_ok(m, n, id, Symbol::Y)) by {
                if placement_ok(m, n, id, Symbol::Y) {
                    assert(valid_symbols(m, n, id).len() > 0);
                }
            }
            lemma_ruled_out_not_in_solution(s, m, n, id, Symbol::X);
            lemma_ruled_out_not_in_solution(s, m, n, id, Symbol::Y);
            assert(!is_blank(s, id));
        }
    }
}


/// A cell that a pass has filled stays as it is for the rest of the pass.
proof fn lemma_sweep_keeps_filled(m: Map<i32, Symbol>, n: int, k: nat, k2: nat, j: int)
    requires
        k <= k2 <= i32::MAX + 1,
        !is_blank(sweep(m, n, k), j),
    ensures
        sym(sweep(m, n, k2), j) == sym(sweep(m, n, k), j),
    decreases k2,
{
    if k2 > k {
        lemma_sweep_keeps_filled(m, n, k, (k2 - 1) as nat, j);
        let prev = sweep(m, n, (k2 - 1) as nat);
        let id = k2 - 1;
        if is_blank(prev, id) && forced_symbol(prev, n, id) is Some {
            if id != j {
                assert(id as i32 != j as i32);
            }
        }
    }
}

/// A cell that full passes have filled stays as it is.
proof fn lemma_sweeps_keep_filled(m: Map<i32, Symbol>, n: int, k: nat, k2: nat, j: int)
    requires
        k <= k2,
        n * n <= i32::MAX,
        !is_blank(sweeps(m, n, k), j),
    ensures
        sym(sweeps(m, n, k2), j) == sym(sweeps(m, n, k), j),
    decreases k2,
{
    if k2 > k {
        lemma_sweeps_keep_filled(m, n, k, (k2 - 1) as nat, j);
        let prev = sweeps(m, n, (k2 - 1) as nat);
        assert(0 <= n * n) by (nonlinear_arith);
        lemma_sweep_keeps_filled(prev, n, 0, (n * n) as nat, j);
    }
}

/// Propagation keeps every symbol the grid already had.
pub proof fn lemma_propagation_keeps_filled(m: Map<i32, Symbol>, n: int, r: Map<i32, Symbol>, j: int)
    requires
        n * n <= i32::MAX,
        propagated(m, n, r),
        !is_blank(m, j),
    ensures
        sym(r, j) == sym(m, j),
{
    let k = choose|k: nat|
        #![trigger sweeps(m, n, k)]
        r == sweeps(m, n, k) && full_sweep(r, n) == r && forall|i: nat|
            i < k ==> #[trigger] sweeps(m, n, i) != sweeps(m, n, i + 1);
    lemma_sweeps_keep_filled(m, n, 0, k, j);
}

/// A pass that changes nothing overall changes nothing at any step.
proof fn lemma_unchanged_sweep_steps(r: Map<i32, Symbol>, n: int, k: nat)
    requires
        0 < n,
        n * n <= i32::MAX,
        k <= n * n,
        full_sweep(r, n) == r,
    ensures
        sweep(r, n, k) == r,
    decreases k,
{
    if k > 0 {
        lemma_unchanged_sweep_steps(r, n, (k - 1) as nat);
        let id = k - 1;
        if is_blank(r, id) && forced_symbol(r, n, id) is Some {
            let filled = sweep(r, n, k);
            assert(sym(filled, id) == forced_symbol(r, n, id));
            assert(!is_blank(filled, id));
            lemma_sweep_keeps_filled(r, n, k, (n * n) as nat, id);
            assert(sym(full_sweep(r, n), id) == sym(filled, id));
        }
    }
}

/// After propagation no blank cell of the grid must take a symbol: every
/// forced move has been made.
pub proof fn lemma_propagated_is_fixpoint(m: Map<i32, Symbol>, n: int, r: Map<i32, Symbol>, id: int)
    requires
        0 < n,
        n * n <= i32::MAX,
        propagated(m, n, r),
        0 <= id < n * n,
    ensures
        !(is_blank(r, id) && forced_symbol(r, n, id) is Some),
{
    let k = choose|k: nat|
        #![trigger sweeps(m, n, k)]
        r == sweeps(m, n, k) && full_sweep(r, n) == r && forall|i: nat|
            i < k ==> #[trigger] sweeps(m, n, i) != sweeps(m, n, i + 1);
    lemma_unchanged_sweep_steps(r, n, (id + 1) as nat);
    lemma_unchanged_sweep_steps(r, n, id as nat);
}

/// A pass of forced moves keeps every solution of the puzzle.
proof fn lemma_sweep_keeps_solutions(s: Map<i32, Symbol>, m: Map<i32, Symbol>, n: int, k: nat)
    requires
        solves(s, m, n),
        0 < n,
        n * n <= i32::MAX,
        k <= n * n,
    ensures
        solves(s, sweep(m, n, k), n),
    decreases k,
{
    if k > 0 {
        lemma_sweep_keeps_solutions(s, m, n, (k - 1) as nat);
        let prev = sweep(m, n, (k - 1) as nat);
        let id = k - 1;
        if is_blank(prev, id) && forced_symbol(prev, n, id) is Some {
            lemma_forced_in_solution(s, prev, n, id);
            let next = sweep(m, n, k);
            assert forall|j: int| 0 <= j < n * n && !is_blank(next, j) implies #[trigger] sym(s, j) == sym(next, j) by {
                if j != id {
                    assert(j as i32 != id as i32);
                    assert(sym(next, j) == sym(prev, j));
                }
            }
        }
    }
}

/// Full passes of forced moves keep every solution of the puzzle.
proof fn lemma_sweeps_keep_solutions(s: Map<i32, Symbol>, m: Map<i32, Symbol>, n: int, k: nat)
    requires
        solves(s, m, n),
        0 < n,
        n * n <= i32::MAX,
    ensures
        solves(s, sweeps(m, n, k), n),
    decreases k,
{
    if k > 0 {
        lemma_sweeps_keep_solutions(s, m, n, (k - 1) as nat);
        lemma_sweep_keeps_solutions(s, sweeps(m, n, (k - 1) as nat), n, (n * n) as nat);
    }
}

/// Propagation loses no solution: every solution of the puzzle is a
/// solution of the propagated grid.
pub proof fn lemma_propagation_keeps_solutions(s: Map<i32, Symbol>, m: Map<i32, Symbol>, n: int, r: Map<i32, Symbol>)
    requires
        solves(s, m, n),
        0 < n,
        n * n <= i32::MAX,
        propagated(m, n, r),
    ensures
        solves(s, r, n),
{
    let k = choose|k: nat|
        #![trigger sweeps(m, n, k)]
        r == sweeps(m, n, k) && full_sweep(r, n) == r && forall|i: nat|
            i < k ==> #[trigger] sweeps(m, n, i) != sweeps(m, n, i + 1);
    lemma_sweeps_keep_solutions(s, m, n, k);
}

/// Writing `x` into one blank cell adds at most one `x` to the first `k`
/// cells of a row.
proof fn lemma_count_row_after_write(m: Map<i32, Symbol>, n: int, row: int, x: Symbol, k: nat, id: int)
    requires
        0 <= id <= i32::MAX,
    ensures
        count_row_prefix(m.insert(id as i32, x), n, row, x, k) <= count_row_prefix(m, n, row, x, k) + 1,
    decreases k,
{
    if k > 0 {
        lemma_count_row_after_write(m, n, row, x, (k - 1) as nat, id);
        let c = cell_id(n, row, k - 1);
        if c != id {
            if i32::MIN <= c <= i32::MAX {
                assert(c as i32 != id as i32);
            }
            assert(sym(m.insert(id as i32, x), c) == sym(m, c));
        }
        if c == id {
            lemma_count_row_unwritten(m, n, row, x, (k - 1) as nat, id);
        }
    }
}

/// The first `k` cells of a row, not including cell `id`, hold as many
/// `x` before and after `id` is written.
proof fn lemma_count_row_unwritten(m: Map<i32, Symbol>, n: int, row: int, x: Symbol, k: nat, id: int)
    requires
        0 <= id <= i32::MAX,
        forall|c: int| 0 <= c < k ==> #[trigger] cell_id(n, row, c) != id,
    ensures
        count_row_prefix(m.insert(id as i32, x), n, row, x, k) == count_row_prefix(m, n, row, x, k),
    decreases k,
{
    if k > 0 {
        lemma_count_row_unwritten(m, n, row, x, (k - 1) as nat, id);
        let c = cell_id(n, row, k - 1);
        if i32::MIN <= c <= i32::MAX {
            assert(c as i32 != id as i32);
        }
    }
}


/// Writing `x` into one blank cell adds at most one `x` to the first `k`
/// cells of a column.
proof fn lemma_count_col_after_write(m: Map<i32, Symbol>, n: int, col: int, x: Symbol, k: nat, id: int)
    requires
        0 < n,
        0 <= col < n,
        0 <= id <= i32::MAX,
    ensures
        count_col_prefix(m.insert(id as i32, x), n, col, x, k) <= count_col_prefix(m, n, col, x, k) + 1,
    decreases k,
{
    if k > 0 {
        lemma_count_col_after_write(m, n, col, x, (k - 1) as nat, id);
        let c = cell_id(n, k - 1, col);
        if c != id {
            if i32::MIN <= c <= i32::MAX {
                assert(c as i32 != id as i32);
            }
            assert(sym(m.insert(id as i32, x), c) == sym(m, c));
        } else {
            assert forall|r: int| 0 <= r < k - 1 implies #[trigger] cell_id(n, r, col) != id by {
                if cell_id(n, r, col) == id {
                    lemma_cell_id_unique(n, r, col, k - 1, col);
                }
            }
            lemma_count_col_unwritten(m, n, col, x, (k - 1) as nat, id);
        }
    }
}

/// The first `k` cells of a column, not including cell `id`, hold as many
/// `x` before and after `id` is written.
proof fn lemma_count_col_unwritten(m: Map<i32, Symbol>, n: int, col: int, x: Symbol, k: nat, id: int)
    requires
        0 <= id <= i32::MAX,
        forall|r: int| 0 <= r < k ==> #[trigger] cell_id(n, r, col) != id,
    ensures
        count_col_prefix(m.insert(id as i32, x), n, col, x, k) == count_col_prefix(m, n, col, x, k),
    decreases k,
{
    if k > 0 {
        lemma_count_col_unwritten(m, n, col, x, (k - 1) as nat, id);
        let c = cell_id(n, k - 1, col);
        if i32::MIN <= c <= i32::MAX {
            assert(c as i32 != id as i32);
        }
    }
}

/// Three cells that do not include `id` hold a run in the grid with `id`
/// written only if they held it before.
proof fn lemma_same_three_unwritten(m: Map<i32, Symbol>, id: int, x: Symbol, a: int, b: int, c: int)
    requires
        0 <= id <= i32::MAX,
        a != id,
        b != id,
        c != id,
        same_three(m.insert(id as i32, x), a, b, c),
    ensures
        same_three(m, a, b, c),
{
    let m2 = m.insert(id as i32, x);
    assert(sym(m2, a) == sym(m, a)) by {
        if i32::MIN <= a <= i32::MAX {
            assert(a as i32 != id as i32);
        }
    }
    assert(sym(m2, b) == sym(m, b)) by {
        if i32::MIN <= b <= i32::MAX {
            assert(b as i32 != id as i32);
        }
    }
    assert(sym(m2, c) == sym(m, c)) by {
        if i32::MIN <= c <= i32::MAX {
            assert(c as i32 != id as i32);
        }
    }
}

/// A cell other than `id` holds in the grid with `id` written what it held
/// before.
proof fn lemma_other_cell(m: Map<i32, Symbol>, id: int, x: Symbol, a: int)
    requires
        0 <= id <= i32::MAX,
        a != id,
    ensures
        sym(m.insert(id as i32, x), a) == sym(m, a),
{
    if i32::MIN <= a <= i32::MAX {
        assert(a as i32 != id as i32);
    }
}

/// Writing a symbol that may go into a blank cell of a grid without runs
/// of three makes no run of three and fills neither the row nor the
/// column of the cell beyond half its width.
pub proof fn lemma_valid_placement_keeps_rules(m: Map<i32, Symbol>, n: int, id: int, x: Symbol)
    requires
        0 < n,
        n * n <= i32::MAX,
        0 <= id < n * n,
        is_blank(m, id),
        x != Symbol::Empty,
        placement_ok(m, n, id, x),
        !has_three(m, n),
    ensures
        !has_three(m.insert(id as i32, x), n),
        count_row(m.insert(id as i32, x), n, id / n, x) <= half(n),
        count_col(m.insert(id as i32, x), n, id % n, x) <= half(n),
{
    lemma_id_coords(n, id);
    let row = id / n;
    let col = id % n;
    let m2 = m.insert(id as i32, x);
    assert(sym(m2, id) == Some(x));
    lemma_count_row_after_write(m, n, row, x, n as nat, id);
    lemma_count_col_after_write(m, n, col, x, n as nat, id);
    if exists|r: int, c: int| 0 <= r < n && 0 <= c <= n - 3 && #[trigger] three_across(m2, n, r, c) {
        let (r, c) = choose|r: int, c: int| 0 <= r < n && 0 <= c <= n - 3 && #[trigger] three_across(m2, n, r, c);
        let a = cell_id(n, r, c);
        let b = cell_id(n, r, c + 1);
        let d = cell_id(n, r, c + 2);
        if a == id {
            lemma_cell_id_unique(n, r, c, row, col);
            lemma_other_cell(m, id, x, b);
            lemma_other_cell(m, id, x, d);
            assert(both_hold(m, cell_id(n, row, col + 1), cell_id(n, row, col + 2), x));
        } else if b == id {
            lemma_cell_id_unique(n, r, c + 1, row, col);
            lemma_other_cell(m, id, x, a);
            lemma_other_cell(m, id, x, d);
            assert(both_hold(m, cell_id(n, row, col - 1), cell_id(n, row, col + 1), x));
        } else if d == id {
            lemma_cell_id_unique(n, r, c + 2, row, col);
            lemma_other_cell(m, id, x, a);
            lemma_other_cell(m, id, x, b);
            assert(both_hold(m, cell_id(n, row, col - 1), cell_id(n, row, col - 2), x));
        } else {
            lemma_same_three_unwritten(m, id, x, a, b, d);
            assert(three_across(m, n, r, c));
        }
    }
    if exists|r: int, c: int| 0 <= c < n && 0 <= r <= n - 3 && #[trigger] three_down(m2, n, r, c) {
        let (r, c) = choose|r: int, c: int| 0 <= c < n && 0 <= r <= n - 3 && #[trigger] three_down(m2, n, r, c);
        let a = cell_id(n, r, c);
        let b = cell_id(n, r + 1, c);
        let d = cell_id(n, r + 2, c);
        assert(b == a + n && d == a + 2 * n) by (nonlinear_arith)
            requires
                a == r * n + c,
                b == (r + 1) * n + c,
                d == (r + 2) * n + c,
        ;
        if a == id {
            lemma_cell_id_unique(n, r, c, row, col);
            lemma_other_cell(m, id, x, b);
            lemma_other_cell(m, id, x, d);
            assert(both_hold(m, cell_id(n, row + 1, col), cell_id(n, row + 2, col), x));
        } else if b == id {
            lemma_cell_id_unique(n, r + 1, c, row, col);
            lemma_other_cell(m, id, x, a);
            lemma_other_cell(m, id, x, d);
            assert(both_hold(m, cell_id(n, row - 1, col), cell_id(n, row + 1, col), x));
        } else if d == id {
            lemma_cell_id_unique(n, r + 2, c, row, col);
            lemma_other_cell(m, id, x, a);
            lemma_other_cell(m, id, x, b);
            assert(both_hold(m, cell_id(n, row - 1, col), cell_id(n, row - 2, col), x));
        } else {
            lemma_same_three_unwritten(m, id, x, a, b, d);
            assert(three_down(m, n, r, c));
        }
    }
}


/// The cells of `order[i..]` that are blank and can take a single symbol.
pub open spec fn one_option_cell(m: Map<i32, Symbol>, n: int, id: i32) -> bool {
    is_blank(m, id as int) && valid_symbols(m, n, id as int).len() == 1
}

/// When a blank cell with a single valid symbol comes in `order[i..]`, the
/// chosen cell is the first such cell.
pub proof fn lemma_chosen_prefers_single_option(
    m: Map<i32, Symbol>,
    n: int,
    order: Seq<i32>,
    i: int,
    best: Option<i32>,
    min_options: int,
    max_pressure: int,
    j: int,
)
    requires
        0 <= i <= j < order.len(),
        one_option_cell(m, n, order[j]),
        forall|k: int| i <= k < j ==> !#[trigger] one_option_cell(m, n, order[k]),
    ensures
        chosen_cell_from(m, n, order, i, best, min_options, max_pressure) == Some(order[j]),
    decreases j - i,
{
    if i < j {
        assert(!one_option_cell(m, n, order[i]));
        let id = order[i];
        let options = valid_symbols(m, n, id as int).len() as int;
        if is_blank(m, id as int) && options != 0 {
            let p = cell_pressure(m, n, id as int);
            if options < min_options || (options == min_options && p > max_pressure) {
                lemma_chosen_prefers_single_option(m, n, order, i + 1, Some(id), options, p, j);
            } else {
                lemma_chosen_prefers_single_option(m, n, order, i + 1, best, min_options, max_pressure, j);
            }
        } else {
            lemma_chosen_prefers_single_option(m, n, order, i + 1, best, min_options, max_pressure, j);
        }
    }
}

/// The cell the solver fills next is the first cell in `order` that is
/// blank and can take a single symbol, if any is.
pub proof fn lemma_single_option_first(m: Map<i32, Symbol>, n: int, order: Seq<i32>, j: int)
    requires
        0 <= j < order.len(),
        one_option_cell(m, n, order[j]),
        forall|k: int| 0 <= k < j ==> !#[trigger] one_option_cell(m, n, order[k]),
    ensures
        chosen_cell(m, n, order) == Some(order[j]),
{
    lemma_chosen_prefers_single_option(m, n, order, 0, None, usize::MAX as int, 0, j);
}

/// A symbol may go into a blank cell only if it keeps the rules there, and
/// a blank cell forced to a symbol can take that symbol.
pub proof fn lemma_forced_symbol_is_valid(m: Map<i32, Symbol>, n: int, id: int)
    requires
        forced_symbol(m, n, id) is Some,
    ensures
        placement_ok(m, n, id, forced_symbol(m, n, id).unwrap()),
        valid_symbols(m, n, id) == seq![forced_symbol(m, n, id).unwrap()],
{
    if forced_symbol(m, n, id) == Some(Symbol::X) {
        assert(valid_symbols(m, n, id) =~= seq![Symbol::X]);
    } else {
        assert(valid_symbols(m, n, id) =~= seq![Symbol::Y]);
    }
}


/// The map holds exactly the cells `0 .. n * n` of the grid.
pub open spec fn holds_grid(m: Map<i32, Symbol>, n: int) -> bool {
    forall|k: i32| #[trigger] m.contains_key(k) <==> 0 <= k < n * n
}

/// A pass fills only cells the map already holds, so it keeps the map's
/// cells.
proof fn lemma_sweep_keeps_cells(m: Map<i32, Symbol>, n: int, k: nat)
    requires
        0 < n,
        k <= n * n <= i32::MAX,
        holds_grid(m, n),
    ensures
        sweep(m, n, k).dom() == m.dom(),
    decreases k,
{
    if k > 0 {
        lemma_sweep_keeps_cells(m, n, (k - 1) as nat);
        let prev = sweep(m, n, (k - 1) as nat);
        assert(prev.contains_key((k - 1) as i32));
        assert(prev.insert((k - 1) as i32, Symbol::X).dom() =~= prev.dom());
    }
}

/// Repeated passes keep the map's cells.
proof fn lemma_sweeps_keep_cells(m: Map<i32, Symbol>, n: int, k: nat)
    requires
        0 < n,
        n * n <= i32::MAX,
        holds_grid(m, n),
    ensures
        sweeps(m, n, k).dom() == m.dom(),
    decreases k,
{
    if k > 0 {
        lemma_sweeps_keep_cells(m, n, (k - 1) as nat);
        let prev = sweeps(m, n, (k - 1) as nat);
        assert(holds_grid(prev, n));
        lemma_sweep_keeps_cells(prev, n, (n * n) as nat);
    }
}

/// A pass never adds a blank cell, and a pass that changes the grid fills
/// at least one.
proof fn lemma_sweep_fills(m: Map<i32, Symbol>, n: int, k: nat)
    requires
        k <= n * n <= i32::MAX,
    ensures
        blank_count(sweep(m, n, k), (n * n) as nat) <= blank_count(m, (n * n) as nat),
        sweep(m, n, k) != m ==> blank_count(sweep(m, n, k), (n * n) as nat) < blank_count(m, (n * n) as nat),
    decreases k,
{
    if k > 0 {
        lemma_sweep_fills(m, n, (k - 1) as nat);
        let prev = sweep(m, n, (k - 1) as nat);
        let id = k - 1;
        if is_blank(prev, id) && forced_symbol(prev, n, id) is Some {
            lemma_blank_count_fill(prev, (n * n) as nat, id, forced_symbol(prev, n, id).unwrap());
        }
    }
}

/// `k + 1` passes over `m` reach what `k` passes over the first pass reach.
proof fn lemma_sweeps_shift(m: Map<i32, Symbol>, n: int, k: nat)
    ensures
        sweeps(m, n, k + 1) == sweeps(full_sweep(m, n), n, k),
    decreases k,
{
    assert(sweeps(m, n, k + 1) == full_sweep(sweeps(m, n, k), n));
    if k > 0 {
        lemma_sweeps_shift(m, n, (k - 1) as nat);
        assert(sweeps(full_sweep(m, n), n, k) == full_sweep(sweeps(full_sweep(m, n), n, (k - 1) as nat), n));
    } else {
        assert(sweeps(m, n, 0) == m);
        assert(sweeps(full_sweep(m, n), n, 0) == full_sweep(m, n));
    }
}

/// Propagation always comes to an end: some number of passes reaches a
/// grid that a further pass leaves as it is.
pub proof fn lemma_propagation_ends(m: Map<i32, Symbol>, n: int)
    requires
        0 < n,
        n * n <= i32::MAX,
    ensures
        propagated(m, n, propagation(m, n)),
    decreases blank_count(m, (n * n) as nat),
{
    if full_sweep(m, n) == m {
        assert(sweeps(m, n, 0) == m);
        assert(propagated(m, n, m));
    } else {
        let m1 = full_sweep(m, n);
        lemma_sweep_fills(m, n, (n * n) as nat);
        lemma_blank_count_bounds(m1, (n * n) as nat);
        lemma_propagation_ends(m1, n);
        let r = propagation(m1, n);
        let k1 = choose|k: nat|
            #![trigger sweeps(m1, n, k)]
            r == sweeps(m1, n, k) && full_sweep(r, n) == r && forall|j: nat|
                j < k ==> #[trigger] sweeps(m1, n, j) != sweeps(m1, n, j + 1);
        lemma_sweeps_shift(m, n, k1);
        assert forall|j: nat| j < k1 + 1 implies #[trigger] sweeps(m, n, j) != sweeps(m, n, j + 1) by {
            if j == 0 {
                assert(sweeps(m, n, 1) == full_sweep(sweeps(m, n, 0), n));
            } else {
                lemma_sweeps_shift(m, n, (j - 1) as nat);
                lemma_sweeps_shift(m, n, j);
                assert(sweeps(m1, n, (j - 1) as nat) != sweeps(m1, n, j));
            }
        }
        assert(propagated(m, n, r));
    }
}

/// Propagation keeps the grid's cells.
pub proof fn lemma_propagation_keeps_cells(m: Map<i32, Symbol>, n: int)
    requires
        0 < n,
        n * n <= i32::MAX,
        holds_grid(m, n),
    ensures
        holds_grid(propagation(m, n), n),
{
    lemma_propagation_ends(m, n);
    let r = propagation(m, n);
    let k = choose|k: nat|
        #![trigger sweeps(m, n, k)]
        r == sweeps(m, n, k) && full_sweep(r, n) == r && forall|j: nat|
            j < k ==> #[trigger] sweeps(m, n, j) != sweeps(m, n, j + 1);
    lemma_sweeps_keep_cells(m, n, k);
}

/// Grids that agree on every cell count as many of a symbol in each row.
proof fn lemma_agree_count_row(a: Map<i32, Symbol>, b: Map<i32, Symbol>, n: int, row: int, s: Symbol, k: nat)
    requires
        0 <= row < n,
        k <= n,
        forall|id: int| 0 <= id < n * n ==> #[trigger] sym(a, id) == sym(b, id),
    ensures
        count_row_prefix(a, n, row, s, k) == count_row_prefix(b, n, row, s, k),
    decreases k,
{
    if k > 0 {
        lemma_agree_count_row(a, b, n, row, s, (k - 1) as nat);
        lemma_cell_id_in_grid(n, row, k - 1);
    }
}

/// Grids that agree on every cell count as many of a symbol in each column.
proof fn lemma_agree_count_col(a: Map<i32, Symbol>, b: Map<i32, Symbol>, n: int, col: int, s: Symbol, k: nat)
    requires
        0 <= col < n,
        k <= n,
        forall|id: int| 0 <= id < n * n ==> #[trigger] sym(a, id) == sym(b, id),
    ensures
        count_col_prefix(a, n, col, s, k) == count_col_prefix(b, n, col, s, k),
    decreases k,
{
    if k > 0 {
        lemma_agree_count_col(a, b, n, col, s, (k - 1) as nat);
        lemma_cell_id_in_grid(n, k - 1, col);
    }
}

/// A run of three in a grid is a run of three in any grid that agrees
/// with it on every cell.
proof fn lemma_agree_three(a: Map<i32, Symbol>, b: Map<i32, Symbol>, n: int)
    requires
        0 < n,
        forall|id: int| 0 <= id < n * n ==> #[trigger] sym(a, id) == sym(b, id),
        has_three(a, n),
    ensures
        has_three(b, n),
{
    if exists|row: int, col: int| 0 <= row < n && 0 <= col <= n - 3 && #[trigger] three_across(a, n, row, col) {
        let (row, col) = choose|row: int, col: int| 0 <= row < n && 0 <= col <= n - 3 && #[trigger] three_across(a, n, row, col);
        lemma_cell_id_in_grid(n, row, col);
        lemma_cell_id_in_grid(n, row, col + 1);
        lemma_cell_id_in_grid(n, row, col + 2);
        assert(three_across(b, n, row, col));
    } else {
        let (row, col) = choose|row: int, col: int| 0 <= col < n && 0 <= row <= n - 3 && #[trigger] three_down(a, n, row, col);
        lemma_cell_id_in_grid(n, row, col);
        lemma_cell_id_in_grid(n, row + 1, col);
        lemma_cell_id_in_grid(n, row + 2, col);
        assert(three_down(b, n, row, col));
    }
}

/// A grid that agrees on every cell with a valid solution is one.
proof fn lemma_agree_valid(a: Map<i32, Symbol>, b: Map<i32, Symbol>, n: int)
    requires
        0 < n,
        forall|id: int| 0 <= id < n * n ==> #[trigger] sym(a, id) == sym(b, id),
        valid_solution(a, n),
    ensures
        valid_solution(b, n),
{
    assert forall|row: int| 0 <= row < n implies #[trigger] row_balanced(b, n, row) by {
        lemma_agree_count_row(a, b, n, row, Symbol::X, n as nat);
        lemma_agree_count_row(a, b, n, row, Symbol::Y, n as nat);
        assert(row_balanced(a, n, row));
    }
    assert forall|col: int| 0 <= col < n implies #[trigger] col_balanced(b, n, col) by {
        lemma_agree_count_col(a, b, n, col, Symbol::X, n as nat);
        lemma_agree_count_col(a, b, n, col, Symbol::Y, n as nat);
        assert(col_balanced(a, n, col));
    }
    if has_three(b, n) {
        assert forall|id: int| 0 <= id < n * n implies #[trigger] sym(b, id) == sym(a, id) by {
            assert(sym(a, id) == sym(b, id));
        }
        lemma_agree_three(b, a, n);
    }
}

/// Grids that agree on every cell keep the rules alike.
pub proof fn lemma_agreeing_grids_alike(a: Map<i32, Symbol>, b: Map<i32, Symbol>, n: int)
    requires
        0 < n,
        forall|id: int| 0 <= id < n * n ==> #[trigger] sym(a, id) == sym(b, id),
    ensures
        valid_solution(a, n) == valid_solution(b, n),
{
    assert forall|id: int| 0 <= id < n * n implies #[trigger] sym(b, id) == sym(a, id) by {
        assert(sym(a, id) == sym(b, id));
    }
    if valid_solution(a, n) {
        lemma_agree_valid(a, b, n);
    }
    if valid_solution(b, n) {
        lemma_agree_valid(b, a, n);
    }
}

/// With a cell of `order[i..]` blank and able to take a symbol, a cell is
/// chosen.
proof fn lemma_chosen_cell_found(
    m: Map<i32, Symbol>,
    n: int,
    order: Seq<i32>,
    i: int,
    best: Option<i32>,
    min_options: int,
    max_pressure: int,
    j: int,
)
    requires
        0 <= i <= j < order.len(),
        is_blank(m, order[j] as int),
        valid_symbols(m, n, order[j] as int).len() > 0,
        best is None ==> min_options > 2,
    ensures
        chosen_cell_from(m, n, order, i, best, min_options, max_pressure) is Some,
    decreases order.len() - i,
{
    let id = order[i];
    let options = valid_symbols(m, n, id as int).len() as int;
    assert(options <= 2);
    if is_blank(m, id as int) && options != 0 {
        if options != 1 {
            let p = cell_pressure(m, n, id as int);
            if options < min_options || (options == min_options && p > max_pressure) {
                lemma_chosen_from_keeps_some(m, n, order, i + 1, id, options, p);
            } else if i + 1 <= j {
                lemma_chosen_cell_found(m, n, order, i + 1, best, min_options, max_pressure, j);
            } else {
                lemma_chosen_from_keeps_some(m, n, order, i + 1, best.unwrap(), min_options, max_pressure);
            }
        }
    } else {
        lemma_chosen_cell_found(m, n, order, i + 1, best, min_options, max_pressure, j);
    }
}

/// Once a cell is chosen, the choice stays some cell.
proof fn lemma_chosen_from_keeps_some(
    m: Map<i32, Symbol>,
    n: int,
    order: Seq<i32>,
    i: int,
    best: i32,
    min_options: int,
    max_pressure: int,
)
    requires
        0 <= i,
    ensures
        chosen_cell_from(m, n, order, i, Some(best), min_options, max_pressure) is Some,
    decreases order.len() - i,
{
    if i < order.len() {
        let id = order[i];
        let options = valid_symbols(m, n, id as int).len() as int;
        if is_blank(m, id as int) && options != 0 {
            if options != 1 {
                let p = cell_pressure(m, n, id as int);
                if options < min_options || (options == min_options && p > max_pressure) {
                    lemma_chosen_from_keeps_some(m, n, order, i + 1, id, options, p);
                } else {
                    lemma_chosen_from_keeps_some(m, n, order, i + 1, best, min_options, max_pressure);
                }
            }
        } else {
            lemma_chosen_from_keeps_some(m, n, order, i + 1, best, min_options, max_pressure);
        }
    }
}

/// With every cell of the grid in `order`, a grid that is not impossible
/// and has a blank cell gets a cell chosen.
pub proof fn lemma_blank_cell_gets_chosen(m: Map<i32, Symbol>, n: int, order: Seq<i32>, id: int)
    requires
        0 < n,
        0 <= id < n * n,
        is_blank(m, id),
        n * n <= i32::MAX,
        !impossible(m, n),
        order.contains(id as i32),
    ensures
        chosen_cell(m, n, order) is Some,
{
    assert(valid_symbols(m, n, id).len() > 0);
    assert(exists|j: int| 0 <= j < order.len() && order[j] == id as i32);
    let j = choose|j: int| 0 <= j < order.len() && order[j] == id as i32;
    assert(order[j] as int == id);
    lemma_chosen_cell_found(m, n, order, 0, None, usize::MAX as int, 0, j);
}


/// The first `k` cells of a row hold at most `k` symbols in all, and hold
/// `k` only if none of them is blank.
proof fn lemma_row_symbols_fill(m: Map<i32, Symbol>, n: int, row: int, k: nat)
    ensures
        count_row_prefix(m, n, row, Symbol::X, k) + count_row_prefix(m, n, row, Symbol::Y, k) <= k,
        count_row_prefix(m, n, row, Symbol::X, k) + count_row_prefix(m, n, row, Symbol::Y, k) == k ==> forall|c: int|
            0 <= c < k ==> !#[trigger] is_blank(m, cell_id(n, row, c)),
    decreases k,
{
    if k > 0 {
        lemma_row_symbols_fill(m, n, row, (k - 1) as nat);
    }
}

/// A grid of even width that holds only cells of the grid and keeps every
/// rule fills every cell, holds no `Empty`, and is not impossible: a valid
/// final grid is solved and never judged stuck.
pub proof fn lemma_valid_grid_is_complete(m: Map<i32, Symbol>, n: int)
    requires
        0 < n,
        n % 2 == 0,
        forall|k: i32| #[trigger] m.contains_key(k) ==> 0 <= k < n * n,
        valid_solution(m, n),
    ensures
        complete(m, n),
        all_filled(m),
        !impossible(m, n),
{
    assert forall|id: int| 0 <= id < n * n implies !#[trigger] is_blank(m, id) by {
        lemma_id_coords(n, id);
        let row = id / n;
        assert(row_balanced(m, n, row));
        lemma_row_symbols_fill(m, n, row, n as nat);
        assert(!is_blank(m, cell_id(n, row, id % n)));
    }
    assert forall|k: i32| m.contains_key(k) implies m[k] != Symbol::Empty by {
        assert(!is_blank(m, k as int));
    }
    assert forall|i: int| 0 <= i < n implies !#[trigger] line_overfull(m, n, i) by {
        assert(row_balanced(m, n, i));
        assert(col_balanced(m, n, i));
    }
}

/// Writing `x` into the blank cell `col` of `row` adds one `x` to the first
/// `k` cells of the row when they include that cell, and leaves the count
/// of any other symbol.
proof fn lemma_count_row_fill(m: Map<i32, Symbol>, n: int, row: int, col: int, x: Symbol, s: Symbol, k: nat)
    requires
        0 < n,
        n * n <= i32::MAX,
        0 <= row < n,
        0 <= col < n,
        k <= n,
        is_blank(m, cell_id(n, row, col)),
        s != Symbol::Empty,
    ensures
        count_row_prefix(m.insert(cell_id(n, row, col) as i32, x), n, row, s, k) == count_row_prefix(m, n, row, s, k)
            + if col < k && s == x { 1int } else { 0int },
    decreases k,
{
    if k > 0 {
        lemma_count_row_fill(m, n, row, col, x, s, (k - 1) as nat);
        lemma_cell_id_in_grid(n, row, k - 1);
        lemma_cell_id_in_grid(n, row, col);
        let c = cell_id(n, row, k - 1);
        let id = cell_id(n, row, col);
        if k - 1 != col {
            assert(c as i32 != id as i32);
            assert(sym(m.insert(id as i32, x), c) == sym(m, c));
        }
    }
}

/// Writing `x` into the blank cell `row` of `col` adds one `x` to the first
/// `k` cells of the column when they include that cell, and leaves the
/// count of any other symbol.
proof fn lemma_count_col_fill(m: Map<i32, Symbol>, n: int, row: int, col: int, x: Symbol, s: Symbol, k: nat)
    requires
        0 < n,
        n * n <= i32::MAX,
        0 <= row < n,
        0 <= col < n,
        k <= n,
        is_blank(m, cell_id(n, row, col)),
        s != Symbol::Empty,
    ensures
        count_col_prefix(m.insert(cell_id(n, row, col) as i32, x), n, col, s, k) == count_col_prefix(m, n, col, s, k)
            + if row < k && s == x { 1int } else { 0int },
    decreases k,
{
    if k > 0 {
        lemma_count_col_fill(m, n, row, col, x, s, (k - 1) as nat);
        lemma_cell_id_in_grid(n, k - 1, col);
        lemma_cell_id_in_grid(n, row, col);
        let c = cell_id(n, k - 1, col);
        let id = cell_id(n, row, col);
        if k - 1 != row {
            if c == id {
                lemma_cell_id_unique(n, k - 1, col, row, col);
            }
            assert(c as i32 != id as i32);
            assert(sym(m.insert(id as i32, x), c) == sym(m, c));
        }
    }
}

/// Filling a blank cell with a symbol raises the pressure of its row and
/// of its column by one when the line held fewer of that symbol than its
/// limit, and leaves it otherwise: pressure rises as a line nears its
/// symbol limits.
pub proof fn lemma_filling_raises_pressure(m: Map<i32, Symbol>, n: int, row: int, col: int, x: Symbol)
    requires
        0 < n,
        n * n <= i32::MAX,
        0 <= row < n,
        0 <= col < n,
        is_blank(m, cell_id(n, row, col)),
        x != Symbol::Empty,
    ensures
        pressure(m.insert(cell_id(n, row, col) as i32, x), n, row, true) == pressure(m, n, row, true) + if count_row(
            m,
            n,
            row,
            x,
        ) < half(n) {
            1int
        } else {
            0int
        },
        pressure(m.insert(cell_id(n, row, col) as i32, x), n, col, false) == pressure(m, n, col, false) + if count_col(
            m,
            n,
            col,
            x,
        ) < half(n) {
            1int
        } else {
            0int
        },
{
    lemma_count_row_fill(m, n, row, col, x, Symbol::X, n as nat);
    lemma_count_row_fill(m, n, row, col, x, Symbol::Y, n as nat);
    lemma_count_col_fill(m, n, row, col, x, Symbol::X, n as nat);
    lemma_count_col_fill(m, n, row, col, x, Symbol::Y, n as nat);
}

} // verus!
