use vstd::prelude::*;
use crate::entries::{count_symbol, filled, insert_entry, lemma_sorted_entries, lists, sorted_entries};
use crate::grid_cell::{Constraint, ConstraintDirection, ConstraintProps, Symbol};
use crate::grid_cell::GridCell;
use crate::level::{Level, trunc_div};
use crate::level_builder::{RowColumn, first_mark, mirror_mark, neighbour, pair_drawn_well};
use crate::text::{decimal_text, push_decimal, push_digits, push_symbol, symbol_text};
use vstd::string::StringExecFns;

verus! {

/// Why a move breaks a rule of the row or column it was made in.
#[derive(Clone, Copy, Debug, PartialEq, Eq, Structural)]
pub enum MoveError {
    /// The line holds `count` cells with `symbol`, more than half its width.
    TooMany { count: usize, symbol: Symbol, line: i32 },
    /// More than two cells with `symbol` stand next to each other.
    Consecutive { symbol: Symbol },
    /// The mark on cell `id` is not kept by its neighbour `other_id`.
    ConstraintBroken { id: i32, symbol: Symbol, other_id: i32, other_symbol: Symbol },
}

/// The text that reports `e` for a row (`across`) or a column.
pub open spec fn move_error_text(e: MoveError, across: bool) -> Seq<char> {
    match e {
        MoveError::TooMany { count, symbol, line } => "Invalid: Too many("@ + decimal_text(count as int) + ") '"@
            + symbol_text(symbol) + (if across { "' symbols in row: "@ } else { "' symbols in col: "@ })
            + decimal_text(line as int),
        MoveError::Consecutive { symbol } => "Invalid: more than two consecutive '"@ + symbol_text(symbol) + (if across {
            "' symbols in a row"@
        } else {
            "' symbols in a col"@
        }),
        MoveError::ConstraintBroken { id, symbol, other_id, other_symbol } => (if across {
            "Invalid: Row Constraint 'Equal' is not fulfilled with cell "@
        } else {
            "Invalid: Column Constraint 'Equal' is not fulfilled with cell "@
        }) + decimal_text(id as int) + " ("@ + symbol_text(symbol) + ") and cell: "@ + decimal_text(other_id as int)
            + " ("@ + symbol_text(other_symbol) + ")"@,
    }
}

impl MoveError {
    /// The text that reports the error for a row (`across`) or a column.
    pub fn message(&self, across: bool) -> (r: String)
        ensures
            r@ == move_error_text(*self, across),
    {
        let mut out = String::new();
        match *self {
            MoveError::TooMany { count, symbol, line } => {
                out.append("Invalid: Too many(");
                push_digits(&mut out, count as u64);
                out.append(") '");
                push_symbol(&mut out, symbol);
                if across {
                    out.append("' symbols in row: ");
                } else {
                    out.append("' symbols in col: ");
                }
                push_decimal(&mut out, line as i64);
            },
            MoveError::Consecutive { symbol } => {
                out.append("Invalid: more than two consecutive '");
                push_symbol(&mut out, symbol);
                if across {
                    out.append("' symbols in a row");
                } else {
                    out.append("' symbols in a col");
                }
            },
            MoveError::ConstraintBroken { id, symbol, other_id, other_symbol } => {
                if across {
                    out.append("Invalid: Row Constraint 'Equal' is not fulfilled with cell ");
                } else {
                    out.append("Invalid: Column Constraint 'Equal' is not fulfilled with cell ");
                }
                push_decimal(&mut out, id as i64);
                out.append(" (");
                push_symbol(&mut out, symbol);
                out.append(") and cell: ");
                push_decimal(&mut out, other_id as i64);
                out.append(" (");
                push_symbol(&mut out, other_symbol);
                out.append(")");
            },
        }
        proof {
            assert(out@ =~= move_error_text(*self, across));
        }
        out
    }
}

/// What checking the marks of a line came to.
pub enum MarkCheck {
    /// Every mark is kept.
    Kept,
    /// A mark is not kept.
    Broken(MoveError),
    /// The check would reach a cell that does not exist.
    Undefined,
}

/// The id -> symbol table of the cells that `ids` names: each cell's own
/// id field gives the key, and a later cell replaces an earlier one with
/// the same id.
pub open spec fn symbols_of(level: Level, ids: Seq<i32>) -> Map<i32, Symbol>
    decreases ids.len(),
{
    if ids.len() == 0 {
        Map::empty()
    } else {
        let c = level.cell_at(ids.last() as int).unwrap();
        symbols_of(level, ids.drop_last()).insert(c.id, c.symbol)
    }
}

/// The symbol of the first run of more than two equal symbols in the
/// sorted entries `s[i..]`, given the symbol seen last (`cur`), its id and
/// the length of its run so far. A run grows when the same symbol comes
/// again at the id `step` after the last one; the same symbol after a gap,
/// or another symbol, starts a new run.
pub open spec fn run_breach(s: Seq<(i32, Symbol)>, step: int, i: int, cur: Option<Symbol>, cur_id: int, count: int) -> Option<Symbol>
    decreases s.len() - i,
{
    if i < 0 || i >= s.len() {
        None
    } else {
        let id = s[i].0 as int;
        let sym = s[i].1;
        match cur {
            None => run_breach(s, step, i + 1, Some(sym), id, count),
            Some(prev) => if prev == sym {
                let grown = if id == cur_id + step { count + 1 } else { 1 };
                if grown > 2 {
                    Some(sym)
                } else {
                    run_breach(s, step, i + 1, cur, id, grown)
                }
            } else {
                run_breach(s, step, i + 1, Some(sym), id, 1)
            },
        }
    }
}

/// Entries `j`, `j + 1` and `j + 2` of `s` hold one symbol, and their ids
/// follow each other `step` apart: three equal symbols next to each other.
pub open spec fn adjacent_triple(s: Seq<(i32, Symbol)>, step: int, j: int) -> bool {
    &&& s[j + 1].1 == s[j].1
    &&& s[j + 2].1 == s[j].1
    &&& s[j + 1].0 as int == s[j].0 as int + step
    &&& s[j + 2].0 as int == s[j + 1].0 as int + step
}

/// Some three entries of `s` in a row are three equal symbols next to each
/// other.
pub open spec fn three_adjacent(s: Seq<(i32, Symbol)>, step: int) -> bool {
    exists|j: int| 0 <= j && j + 2 < s.len() && #[trigger] adjacent_triple(s, step, j)
}

/// Entry `e` holds the symbol of entry `e - 1`, with the id `step` after.
spec fn linked(s: Seq<(i32, Symbol)>, step: int, e: int) -> bool {
    s[e].1 == s[e - 1].1 && s[e].0 as int == s[e - 1].0 as int + step
}

/// How many equal symbols, next to each other, end at entry `e`.
spec fn run_len(s: Seq<(i32, Symbol)>, step: int, e: int) -> int
    decreases e,
{
    if e <= 0 {
        1
    } else if linked(s, step, e) {
        run_len(s, step, e - 1) + 1
    } else {
        1
    }
}

/// A run of three or more ends at entry `e` exactly when entries `e - 2`,
/// `e - 1` and `e` are three adjacent equal symbols.
proof fn lemma_run_len_triple(s: Seq<(i32, Symbol)>, step: int, e: int)
    requires
        0 <= e < s.len(),
    ensures
        run_len(s, step, e) >= 1,
        run_len(s, step, e) >= 3 <==> (e >= 2 && adjacent_triple(s, step, e - 2)),
{
    lemma_run_len_positive(s, step, e);
    if e >= 2 {
        lemma_run_len_positive(s, step, e - 2);
        assert(run_len(s, step, e - 1) == if linked(s, step, e - 1) { run_len(s, step, e - 2) + 1 } else { 1 });
        assert(run_len(s, step, e) == if linked(s, step, e) { run_len(s, step, e - 1) + 1 } else { 1 });
        assert(adjacent_triple(s, step, e - 2) <==> linked(s, step, e - 1) && linked(s, step, e));
    } else if e == 1 {
        assert(run_len(s, step, 0) == 1);
    }
}

proof fn lemma_run_len_positive(s: Seq<(i32, Symbol)>, step: int, e: int)
    ensures
        run_len(s, step, e) >= 1,
    decreases e,
{
    if e > 0 {
        lemma_run_len_positive(s, step, e - 1);
    }
}

/// From entry `i` on, with the run so far counted, the run check finds a
/// run exactly when a run of three or more ends at some entry from `i` on.
proof fn lemma_run_breach_from(s: Seq<(i32, Symbol)>, step: int, i: int, cur: Option<Symbol>, cur_id: int, count: int)
    requires
        1 <= i <= s.len(),
        cur == Some(s[i - 1].1),
        cur_id == s[i - 1].0 as int,
        count == run_len(s, step, i - 1),
        count <= 2,
    ensures
        run_breach(s, step, i, cur, cur_id, count) is Some <==> exists|e: int|
            i <= e < s.len() && #[trigger] run_len(s, step, e) >= 3,
    decreases s.len() - i,
{
    if i < s.len() {
        lemma_run_len_positive(s, step, i);
        if run_len(s, step, i) <= 2 {
            lemma_run_breach_from(s, step, i + 1, Some(s[i].1), s[i].0 as int, run_len(s, step, i));
            if exists|e: int| i <= e < s.len() && #[trigger] run_len(s, step, e) >= 3 {
                let e = choose|e: int| i <= e < s.len() && #[trigger] run_len(s, step, e) >= 3;
                assert(e != i);
            }
        }
    }
}

/// The run check on sorted entries `s` finds a run exactly when three
/// equal symbols stand next to each other in `s`: the same symbol after a
/// gap starts anew.
pub proof fn lemma_run_breach_is_three_adjacent(s: Seq<(i32, Symbol)>, step: int)
    ensures
        run_breach(s, step, 0, None, 0, 1) is Some <==> three_adjacent(s, step),
{
    if s.len() > 0 {
        assert(run_len(s, step, 0) == 1);
        lemma_run_breach_from(s, step, 1, Some(s[0].1), s[0].0 as int, 1);
        if exists|e: int| 1 <= e < s.len() && #[trigger] run_len(s, step, e) >= 3 {
            let e = choose|e: int| 1 <= e < s.len() && #[trigger] run_len(s, step, e) >= 3;
            lemma_run_len_triple(s, step, e);
            assert(adjacent_triple(s, step, e - 2));
        }
        if three_adjacent(s, step) {
            let j = choose|j: int| 0 <= j && j + 2 < s.len() && #[trigger] adjacent_triple(s, step, j);
            lemma_run_len_triple(s, step, j + 2);
            assert(run_len(s, step, j + 2) >= 3);
        }
    }
}

/// The neighbour a mark on cell `id` points at: right and left marks
/// along a row (`across`), top and bottom marks along a column.
pub open spec fn mark_target(id: int, d: ConstraintDirection, columns: int, across: bool) -> Option<int> {
    if across {
        match d {
            ConstraintDirection::Right => Some(id + 1),
            ConstraintDirection::Left => Some(id - 1),
            _ => None,
        }
    } else {
        match d {
            ConstraintDirection::Top => Some(id - columns),
            ConstraintDirection::Bot => Some(id + columns),
            _ => None,
        }
    }
}

/// A mark is read against the very cell it faces: a top or bottom mark
/// against the cell one row above or below in the same column when columns
/// are checked, a left or right mark against the cell beside it in the same
/// row when rows are checked; any other mark is not read there.
pub proof fn lemma_mark_faces_its_neighbour(id: int, d: ConstraintDirection, columns: int, across: bool)
    ensures
        mark_target(id, d, columns, across) == (if (d == ConstraintDirection::Top || d == ConstraintDirection::Bot)
            && !across {
            neighbour(id, columns, d)
        } else if (d == ConstraintDirection::Left || d == ConstraintDirection::Right) && across {
            neighbour(id, columns, d)
        } else {
            None
        }),
        d == ConstraintDirection::Bot && !across ==> mark_target(id, d, columns, across) == Some(id + columns),
        d == ConstraintDirection::Top && !across ==> mark_target(id, d, columns, across) == Some(id - columns),
        d == ConstraintDirection::Right && across ==> mark_target(id, d, columns, across) == Some(id + 1),
        d == ConstraintDirection::Left && across ==> mark_target(id, d, columns, across) == Some(id - 1),
{
}

/// Both marks of a well drawn pair hold on the level the pair was drawn
/// from, in the row check and in the column check alike: each is read
/// against the other cell of the pair, and the pair's kind matches the
/// two cells' symbols.
pub proof fn lemma_drawn_marks_are_kept(level: Level, p: ((i32, i32), Symbol), across: bool)
    requires
        pair_drawn_well(level, level.columns as int, p),
    ensures
        check_mark(level, p.0.0, level.cell_at(p.0.0 as int).unwrap().symbol, first_mark(p.0, p.1, level.columns as int), across) is Kept,
        check_mark(level, p.0.1, level.cell_at(p.0.1 as int).unwrap().symbol, mirror_mark(first_mark(p.0, p.1, level.columns as int)), across) is Kept,
{
    let n = level.columns as int;
    let m1 = first_mark(p.0, p.1, n);
    lemma_mark_faces_its_neighbour(p.0.0 as int, m1.constraint_direction, n, across);
    lemma_mark_faces_its_neighbour(p.0.1 as int, mirror_mark(m1).constraint_direction, n, across);
}

/// Whether the mark `p` on cell `id` holding `sym` is kept: an equal mark
/// is broken by two different symbols, an unequal mark by the same
/// symbol twice.
pub open spec fn check_mark(level: Level, id: i32, sym: Symbol, p: ConstraintProps, across: bool) -> MarkCheck {
    if p.constraint == Constraint::Unset {
        MarkCheck::Kept
    } else {
        match mark_target(id as int, p.constraint_direction, level.columns as int, across) {
            None => MarkCheck::Kept,
            Some(t) => if !(i32::MIN <= t <= i32::MAX) {
                MarkCheck::Undefined
            } else {
                match level.cell_at(t) {
                    None => MarkCheck::Undefined,
                    Some(cell) => {
                        let pair = cell.symbol;
                        let broken = if p.constraint == Constraint::Equal {
                            (sym != Symbol::Empty && pair != Symbol::Empty) && pair != sym
                        } else {
                            (sym != Symbol::Empty || pair != Symbol::Empty) && pair == sym
                        };
                        if broken {
                            MarkCheck::Broken(
                                MoveError::ConstraintBroken { id, symbol: sym, other_id: t as i32, other_symbol: pair },
                            )
                        } else {
                            MarkCheck::Kept
                        }
                    },
                }
            },
        }
    }
}

/// The first mark of `ps[j..]` on cell `id` that is not kept.
pub open spec fn check_marks(level: Level, id: i32, sym: Symbol, ps: Seq<ConstraintProps>, j: int, across: bool) -> MarkCheck
    decreases ps.len() - j,
{
    if j < 0 || j >= ps.len() {
        MarkCheck::Kept
    } else {
        match check_mark(level, id, sym, ps[j], across) {
            MarkCheck::Kept => check_marks(level, id, sym, ps, j + 1, across),
            other => other,
        }
    }
}

/// The first mark not kept on the cells of the entries `s[i..]`, the
/// marks of each cell read from the cell that the entry's id names.
pub open spec fn check_entries(level: Level, s: Seq<(i32, Symbol)>, i: int, across: bool) -> MarkCheck
    decreases s.len() - i,
{
    if i < 0 || i >= s.len() {
        MarkCheck::Kept
    } else {
        match level.cell_at(s[i].0 as int) {
            None => MarkCheck::Undefined,
            Some(c) => match check_marks(level, s[i].0, s[i].1, c.props.constraint_props@, 0, across) {
                MarkCheck::Kept => check_entries(level, s, i + 1, across),
                other => other,
            },
        }
    }
}

/// The verdict on the line of cells `ids` (row or column number `line`):
/// too many `X`, then too many `Y`, then a run of more than two equal
/// symbols (neighbours are `step` ids apart), then a broken mark.
pub open spec fn line_verdict(level: Level, ids: Seq<i32>, line: i32, step: int, across: bool) -> Result<(), (MoveError, i32)> {
    let s = sorted_entries(symbols_of(level, ids));
    let h = trunc_div(level.columns as int, 2);
    let xs = count_symbol(s, Symbol::X);
    let ys = count_symbol(s, Symbol::Y);
    if xs > h {
        Err((MoveError::TooMany { count: xs as usize, symbol: Symbol::X, line }, line))
    } else if ys > h {
        Err((MoveError::TooMany { count: ys as usize, symbol: Symbol::Y, line }, line))
    } else {
        match run_breach(filled(s), step, 0, None, 0, 1) {
            Some(sym) => Err((MoveError::Consecutive { symbol: sym }, line)),
            None => match check_entries(level, filled(s), 0, across) {
                MarkCheck::Broken(e) => Err((e, line)),
                _ => Ok(()),
            },
        }
    }
}

/// Checking the line never reaches a cell that does not exist.
pub open spec fn line_check_defined(level: Level, ids: Seq<i32>, step: int, across: bool) -> bool {
    let s = sorted_entries(symbols_of(level, ids));
    let h = trunc_div(level.columns as int, 2);
    (count_symbol(s, Symbol::X) <= h && count_symbol(s, Symbol::Y) <= h && run_breach(filled(s), step, 0, None, 0, 1) is None)
        ==> !(check_entries(level, filled(s), 0, across) is Undefined)
}

/// The sorted id -> symbol entries of the cells that `ids` names.
fn collect_entries(level: &Level, ids: &Vec<i32>) -> (r: Vec<(i32, Symbol)>)
    requires
        forall|i: int| 0 <= i < ids@.len() ==> (#[trigger] level.cell_at(ids@[i] as int)) is Some,
    ensures
        r@ == sorted_entries(symbols_of(*level, ids@)),
        r@.len() <= ids@.len(),
{
    let mut entries: Vec<(i32, Symbol)> = Vec::new();
    assert(lists(entries@, symbols_of(*level, ids@.take(0))));
    for k in 0..ids.len()
        invariant
            forall|i: int| 0 <= i < ids@.len() ==> (#[trigger] level.cell_at(ids@[i] as int)) is Some,
            lists(entries@, symbols_of(*level, ids@.take(k as int))),
            entries@.len() <= k,
    {
        assert(level.cell_at(ids@[k as int] as int) is Some);
        let cell = level.get_cell(ids[k]).unwrap();
        let ghost before = entries@;
        insert_entry(&mut entries, cell.id, cell.symbol);
        assert(ids@.take(k + 1).drop_last() =~= ids@.take(k as int));
    }
    assert(ids@.take(ids.len() as int) =~= ids@);
    proof {
        lemma_sorted_entries(entries@, symbols_of(*level, ids@));
    }
    entries
}

/// How many entries hold `sym`.
fn count_entries(entries: &Vec<(i32, Symbol)>, sym: Symbol) -> (r: usize)
    ensures
        r == count_symbol(entries@, sym),
        r <= entries@.len(),
{
    let mut count: usize = 0;
    for k in 0..entries.len()
        invariant
            count == count_symbol(entries@.take(k as int), sym),
            count <= k,
    {
        assert(entries@.take(k + 1).drop_last() =~= entries@.take(k as int));
        if entries[k].1 == sym {
            count += 1;
        }
    }
    assert(entries@.take(entries.len() as int) =~= entries@);
    count
}

/// The entries that hold a symbol, in their order.
fn filled_entries(entries: &Vec<(i32, Symbol)>) -> (r: Vec<(i32, Symbol)>)
    ensures
        r@ == filled(entries@),
{
    let mut out: Vec<(i32, Symbol)> = Vec::new();
    for k in 0..entries.len()
        invariant
            out@ == filled(entries@.take(k as int)),
    {
        proof {
            reveal_with_fuel(Seq::<_>::filter, 1);
        }
        let ghost before = out@;
        if entries[k].1 != Symbol::Empty {
            out.push(entries[k]);
        }
        proof {
            let t = entries@.take(k + 1);
            assert(t.drop_last() =~= entries@.take(k as int));
            assert(t.last() == entries@[k as int]);
        }
    }
    assert(entries@.take(entries.len() as int) =~= entries@);
    out
}

/// The symbol of the first run of more than two equal symbols among the
/// sorted, filled `entries`, neighbours being `step` ids apart.
fn find_run_breach(entries: &Vec<(i32, Symbol)>, step: i64) -> (r: Option<Symbol>)
    requires
        i32::MIN <= step <= i32::MAX,
    ensures
        r == run_breach(entries@, step as int, 0, None, 0, 1),
{
    let mut consecutive_count: i64 = 1;
    let mut current_symbol: Option<Symbol> = None;
    let mut current_id: i64 = 0;
    for k in 0..entries.len()
        invariant
            i32::MIN <= step <= i32::MAX,
            i32::MIN <= current_id <= i32::MAX,
            1 <= consecutive_count <= 2,
            run_breach(entries@, step as int, 0, None, 0, 1) == run_breach(entries@, step as int, k as int,
                current_symbol, current_id as int, consecutive_count as int),
    {
        let (id, symbol) = entries[k];
        match current_symbol {
            None => {
                current_symbol = Some(symbol);
                current_id = id as i64;
            },
            Some(prev_symbol) => {
                if prev_symbol == symbol {
                    // 2. are they next to each other
                    if id as i64 == current_id + step {
                        consecutive_count += 1;
                    } else {
                        // a gap between them starts a new run
                        consecutive_count = 1;
                    }
                    if consecutive_count > 2 {
                        return Some(symbol);
                    }
                } else {
                    consecutive_count = 1;
                    current_symbol = Some(symbol);
                }
                current_id = id as i64;
            },
        }
    }
    None
}

/// What checking the mark `p` on cell `id` holding `symbol` comes to.
fn mark_check(level: &Level, id: i32, symbol: Symbol, p: ConstraintProps, across: bool) -> (r: MarkCheck)
    ensures
        r == check_mark(*level, id, symbol, p, across),
{
    if p.constraint == Constraint::Unset {
        return MarkCheck::Kept;
    }
    let columns = level.get_columns() as i64;
    let maybe_id: Option<i64> = if across {
        match p.constraint_direction {
            ConstraintDirection::Right => Some(id as i64 + 1),
            ConstraintDirection::Left => Some(id as i64 - 1),
            _ => None,
        }
    } else {
        match p.constraint_direction {
            ConstraintDirection::Top => Some(id as i64 - columns),
            ConstraintDirection::Bot => Some(id as i64 + columns),
            _ => None,
        }
    };
    let target = match maybe_id {
        None => {
            return MarkCheck::Kept;
        },
        Some(t) => t,
    };
    if target < i32::MIN as i64 || target > i32::MAX as i64 {
        return MarkCheck::Undefined;
    }
    let id_to_be_visited = target as i32;
    let pair_symbol = match level.get_symbol(id_to_be_visited) {
        None => {
            return MarkCheck::Undefined;
        },
        Some(s) => s,
    };
    let broken = if p.constraint == Constraint::Equal {
        (symbol != Symbol::Empty && pair_symbol != Symbol::Empty) && pair_symbol != symbol
    } else {
        (symbol != Symbol::Empty || pair_symbol != Symbol::Empty) && pair_symbol == symbol
    };
    if broken {
        MarkCheck::Broken(MoveError::ConstraintBroken { id, symbol, other_id: id_to_be_visited, other_symbol: pair_symbol })
    } else {
        MarkCheck::Kept
    }
}

/// What checking the marks on the cells of `entries` comes to: the first
/// mark not kept, or a cell the check cannot reach.
fn entries_check(level: &Level, entries: &Vec<(i32, Symbol)>, across: bool) -> (r: MarkCheck)
    ensures
        r == check_entries(*level, entries@, 0, across),
{
    for k in 0..entries.len()
        invariant
            check_entries(*level, entries@, 0, across) == check_entries(*level, entries@, k as int, across),
    {
        let (id, symbol) = entries[k];
        if level.get_cell(id).is_none() {
            return MarkCheck::Undefined;
        }
        let props = level.get_constraint_props(id);
        let ghost ps = props@;
        for j in 0..props.len()
            invariant
                props@ == ps,
                ps == level.cell_at(id as int).unwrap().props.constraint_props@,
                level.cell_at(id as int) is Some,
                entries@[k as int] == (id, symbol),
                0 <= k < entries@.len(),
                check_entries(*level, entries@, 0, across) == check_entries(*level, entries@, k as int, across),
                check_marks(*level, id, symbol, ps, 0, across) == check_marks(*level, id, symbol, ps, j as int, across),
        {
            match mark_check(level, id, symbol, props[j], across) {
                MarkCheck::Kept => {},
                other => {
                    return other;
                },
            }
        }
    }
    MarkCheck::Kept
}

/// Checks the line of cells `ids` (row or column number `line`) against
/// the rules; neighbours in the line are `step` ids apart.
fn check_line(level: &Level, ids: &Vec<i32>, line: i32, step: i32, across: bool) -> (r: Result<(), (MoveError, i32)>)
    requires
        forall|i: int| 0 <= i < ids@.len() ==> (#[trigger] level.cell_at(ids@[i] as int)) is Some,
        ids@.len() <= i32::MAX,
    ensures
        r == line_verdict(*level, ids@, line, step as int, across),
{
    let columns = level.get_columns();
    let symbols_sorted_all = collect_entries(level, ids);

    // if more than half of the columns are filled with X or Y -> INVALID
    let x_count = count_entries(&symbols_sorted_all, Symbol::X);
    if x_count as i32 > columns / 2 {
        return Err((MoveError::TooMany { count: x_count, symbol: Symbol::X, line }, line));
    }
    let y_count = count_entries(&symbols_sorted_all, Symbol::Y);
    if y_count as i32 > columns / 2 {
        return Err((MoveError::TooMany { count: y_count, symbol: Symbol::Y, line }, line));
    }

    // if a symbol is more than 2 times in a line
    // Collect only the cells that have a symbol
    let symbols_sorted = filled_entries(&symbols_sorted_all);
    if let Some(symbol) = find_run_breach(&symbols_sorted, step as i64) {
        return Err((MoveError::Consecutive { symbol }, line));
    }

    // every mark on a cell with a symbol must be kept by its neighbour in the line
    match entries_check(level, &symbols_sorted, across) {
        MarkCheck::Broken(e) => Err((e, line)),
        _ => Ok(()),
    }
}

/// Whether checking the line of cells `ids` never reaches a cell that
/// does not exist.
fn line_defined(level: &Level, ids: &Vec<i32>, step: i32, across: bool) -> (r: bool)
    requires
        forall|i: int| 0 <= i < ids@.len() ==> (#[trigger] level.cell_at(ids@[i] as int)) is Some,
        ids@.len() <= i32::MAX,
    ensures
        r == line_check_defined(*level, ids@, step as int, across),
{
    let columns = level.get_columns();
    let all = collect_entries(level, ids);
    let x_count = count_entries(&all, Symbol::X);
    let y_count = count_entries(&all, Symbol::Y);
    if x_count as i32 > columns / 2 || y_count as i32 > columns / 2 {
        return true;
    }
    let filled_all = filled_entries(&all);
    if find_run_breach(&filled_all, step as i64).is_some() {
        return true;
    }
    match entries_check(level, &filled_all, across) {
        MarkCheck::Undefined => false,
        _ => true,
    }
}

/// The ids of the existing cells in `row` all name existing cells, and
/// there are no more than fit in an `i32`.
proof fn lemma_line_ids(level: Level, ids: Seq<i32>, pred: spec_fn(i32) -> bool)
    requires
        level.ids_fit(),
        ids == level.cell_ids().filter(pred),
    ensures
        forall|i: int| 0 <= i < ids.len() ==> (#[trigger] level.cell_at(ids[i] as int)) is Some,
        ids.len() <= i32::MAX,
{
    let all = level.cell_ids();
    assert forall|i: int| 0 <= i < ids.len() implies (#[trigger] level.cell_at(ids[i] as int)) is Some by {
        assert(all.contains(ids[i])) by {
            all.lemma_filter_contains_rev(pred, ids[i]);
            assert(ids.contains(ids[i]));
        }
        let j = choose|j: int| 0 <= j < all.len() && all[j] == ids[i];
        assert(all[j] == j as i32);
    }
    all.lemma_filter_len(pred);
}

/// The verdict on a move in cell `id`: its row is checked first, then its
/// column; a cell that does not exist is no move and passes.
pub open spec fn move_verdict(level: Level, id: i32) -> Result<(), (MoveError, RowColumn)> {
    match level.cell_at(id as int) {
        None => Ok(()),
        Some(_) => {
            let (row, col) = level.row_col(id as int);
            match line_verdict(level, level.row_ids(row), row as i32, 1, true) {
                Err((e, r)) => Err((e, RowColumn::Row(r))),
                Ok(()) => match line_verdict(level, level.col_ids(col), col as i32, level.columns as int, false) {
                    Err((e, c)) => Err((e, RowColumn::Col(c))),
                    Ok(()) => Ok(()),
                },
            }
        },
    }
}

/// Checking a move in cell `id` divides by a non-zero width and never
/// reaches a cell that does not exist.
pub open spec fn move_check_defined(level: Level, id: i32) -> bool {
    level.cell_at(id as int) is Some ==> {
        let (row, col) = level.row_col(id as int);
        &&& level.columns != 0
        &&& !(id == i32::MIN && level.columns == -1)
        &&& line_check_defined(level, level.row_ids(row), 1, true)
        &&& line_verdict(level, level.row_ids(row), row as i32, 1, true) is Ok ==> line_check_defined(
            level,
            level.col_ids(col),
            level.columns as int,
            false,
        )
    }
}

/// Every existing cell holds a symbol.
pub open spec fn all_cells_filled(level: Level) -> bool {
    forall|i: int| 0 <= i < level.cell_ids().len() ==> (#[trigger] level.cells@[i]).symbol != Symbol::Empty
}

/// What a click on a cell came to.
#[derive(Clone, Copy, Debug, PartialEq, Eq, Structural)]
pub enum ClickOutcome {
    /// The move keeps the rules and fills the last cell.
    Solved,
    /// The move keeps the rules; cells are left to fill.
    Valid,
    /// The move breaks a rule of a row or column.
    Invalid(MoveError, RowColumn),
}

/// Some id of `ids` equals `i`.
pub open spec fn names_index(ids: Seq<i32>, i: int) -> bool {
    exists|j: int| 0 <= j < ids.len() && ids[j] as int == i
}

/// The cells after a move that breaks a rule: the cells of the broken line
/// (`line_ids`) are marked invalid, the existing cells (the first
/// `id_count`) other than those with the clicked cell's id take no clicks,
/// and the clicked cell (at `clicked`) takes clicks and has the focus.
pub open spec fn cells_after_invalid_move(cells: Seq<GridCell>, line_ids: Seq<i32>, id_count: int, clicked: int) -> Seq<GridCell> {
    Seq::new(
        cells.len(),
        |i: int|
            {
                let c1 = if names_index(line_ids, i) { GridCell { invalid: true, ..cells[i] } } else { cells[i] };
                let c2 = if i < id_count && c1.id != cells[clicked].id {
                    GridCell { disabled: true, focused: false, ..c1 }
                } else {
                    c1
                };
                if i == clicked { GridCell { disabled: false, focused: true, ..c2 } } else { c2 }
            },
    )
}

/// The cells after a move that keeps the rules but leaves cells to fill:
/// the existing cells (the first `id_count`) are valid and take clicks.
pub open spec fn cells_after_valid_move(cells: Seq<GridCell>, id_count: int) -> Seq<GridCell> {
    Seq::new(
        cells.len(),
        |i: int|
            if i < id_count {
                GridCell { invalid: false, disabled: false, focused: false, ..cells[i] }
            } else {
                cells[i]
            },
    )
}

/// Marks the existing cells valid, taking clicks and unfocused.
fn mark_valid_move(level: &mut Level)
    requires
        old(level).ids_fit(),
    ensures
        final(level).columns == old(level).columns,
        final(level).cell_properties@ == old(level).cell_properties@,
        final(level).cells@ == cells_after_valid_move(old(level).cells@, old(level).cell_ids().len() as int),
{
    let ids = level.get_cells();
    let ghost start = *level;
    for k in 0..ids.len()
        invariant
            ids@ == start.cell_ids(),
            ids@.len() <= start.cells@.len(),
            ids@.len() <= start.id_count(),
            start.ids_fit(),
            level.columns == start.columns,
            level.cell_properties@ == start.cell_properties@,
            level.cells@.len() == start.cells@.len(),
            forall|i: int| 0 <= i < start.cells@.len() ==> #[trigger] level.cells@[i] == if i < k {
                GridCell { invalid: false, disabled: false, focused: false, ..start.cells@[i] }
            } else {
                start.cells@[i]
            },
    {
        let id = ids[k];
        assert(id as int == k as int);
        level.cells[id as usize].set_invalid_rust(false);
        level.cells[id as usize].set_disabled(false, false);
    }
    assert(level.cells@ =~= cells_after_valid_move(start.cells@, start.cell_ids().len() as int));
}

/// Marks the cells of the broken line invalid, stops the other cells from
/// taking clicks and focuses the clicked cell at index `clicked`.
fn mark_invalid_move(level: &mut Level, line_ids: &Vec<i32>, clicked: usize)
    requires
        old(level).ids_fit(),
        clicked < old(level).cells@.len(),
        forall|i: int| 0 <= i < line_ids@.len() ==> 0 <= #[trigger] line_ids@[i] < old(level).cells@.len(),
    ensures
        final(level).columns == old(level).columns,
        final(level).cell_properties@ == old(level).cell_properties@,
        final(level).cells@ == cells_after_invalid_move(old(level).cells@, line_ids@,
            old(level).cell_ids().len() as int, clicked as int),
{
    let ghost start = *level;
    for k in 0..line_ids.len()
        invariant
            forall|i: int| 0 <= i < line_ids@.len() ==> 0 <= #[trigger] line_ids@[i] < start.cells@.len(),
            level.columns == start.columns,
            level.cell_properties@ == start.cell_properties@,
            level.cells@.len() == start.cells@.len(),
            forall|i: int| 0 <= i < start.cells@.len() ==> #[trigger] level.cells@[i] == if names_index(line_ids@.take(
                k as int,
            ), i) {
                GridCell { invalid: true, ..start.cells@[i] }
            } else {
                start.cells@[i]
            },
    {
        let id = line_ids[k];
        level.cells[id as usize].set_invalid_rust(true);
        assert forall|i: int| 0 <= i < start.cells@.len() implies #[trigger] names_index(line_ids@.take(k + 1), i)
            == (names_index(line_ids@.take(k as int), i) || i == id as int) by {
            let t = line_ids@.take(k + 1);
            if names_index(t, i) {
                let j = choose|j: int| 0 <= j < t.len() && t[j] as int == i;
                if j < k {
                    assert(line_ids@.take(k as int)[j] as int == i);
                }
            }
            if names_index(line_ids@.take(k as int), i) {
                let j = choose|j: int| 0 <= j < k && line_ids@.take(k as int)[j] as int == i;
                assert(t[j] as int == i);
            }
            if i == id as int {
                assert(t[k as int] == id);
            }
        }
    }
    assert(line_ids@.take(line_ids.len() as int) =~= line_ids@);
    let ghost marked = *level;
    let clicked_id = level.cells[clicked].id;
    let ids = level.get_cells();
    for k in 0..ids.len()
        invariant
            ids@ == start.cell_ids(),
            ids@.len() <= start.cells@.len(),
            ids@.len() <= start.id_count(),
            start.ids_fit(),
            clicked < start.cells@.len(),
            clicked_id == marked.cells@[clicked as int].id,
            level.columns == start.columns,
            level.cell_properties@ == start.cell_properties@,
            level.cells@.len() == start.cells@.len(),
            forall|i: int| 0 <= i < start.cells@.len() ==> #[trigger] level.cells@[i] == if i < k
                && marked.cells@[i].id != clicked_id {
                GridCell { disabled: true, focused: false, ..marked.cells@[i] }
            } else {
                marked.cells@[i]
            },
    {
        let id = ids[k];
        assert(id as int == k as int);
        if level.cells[id as usize].id != clicked_id {
            level.cells[id as usize].set_disabled(true, false);
        }
    }
    level.cells[clicked].set_disabled(false, true);
    assert(level.cells@ =~= cells_after_invalid_move(start.cells@, line_ids@, start.cell_ids().len() as int,
        clicked as int));
}

/// The verdict on the row `row` of `level`.
fn row_verdict(level: &Level, row: i32) -> (r: Result<(), (MoveError, i32)>)
    requires
        level.ids_fit(),
    ensures
        r == line_verdict(*level, level.row_ids(row as int), row, 1, true),
{
    let ids = level.get_cells_in_row(row);
    proof {
        lemma_line_ids(*level, ids@, level.in_row(row as int));
    }
    check_line(level, &ids, row, 1, true)
}

/// The verdict on the column `col` of `level`.
fn col_verdict(level: &Level, col: i32) -> (r: Result<(), (MoveError, i32)>)
    requires
        level.ids_fit(),
    ensures
        r == line_verdict(*level, level.col_ids(col as int), col, level.columns as int, false),
{
    let ids = level.get_cells_in_col(col);
    proof {
        lemma_line_ids(*level, ids@, level.in_col(col as int));
    }
    check_line(level, &ids, col, level.get_columns(), false)
}

/// The verdict on a move in cell `id`: its row first, then its column.
fn judge_move(level: &Level, id: i32) -> (r: Result<(), (MoveError, RowColumn)>)
    requires
        level.ids_fit(),
        level.cell_at(id as int) is Some ==> level.columns != 0 && !(id == i32::MIN && level.columns == -1),
    ensures
        r == move_verdict(*level, id),
{
    if let Some((row, col)) = level.get_row_col(id) {
        if let Err((err, row)) = row_verdict(level, row) {
            return Err((err, RowColumn::Row(row)));
        }
        if let Err((err, col)) = col_verdict(level, col) {
            return Err((err, RowColumn::Col(col)));
        }
    };
    Ok(())
}

/// Runs the level being played: checks each move against the rules.
pub struct LevelManager {
    pub active_level: Option<Level>,
}

impl Default for LevelManager {
    fn default() -> (r: Self)
        ensures
            r.active_level is None,
    {
        LevelManager { active_level: None }
    }
}

impl LevelManager {
    /// Starts playing `level`: its cells take clicks from now on.
    pub fn start_level(&mut self, level: Level)
        requires
            level.ids_fit(),
        ensures
            final(self).active_level matches Some(l) && l.columns == level.columns && l.cells@.len()
                == level.cells@.len() && forall|i: int| 0 <= i < level.cells@.len() ==> #[trigger] l.cells@[i]
                == if i < level.cell_ids().len() {
                GridCell { disabled: false, focused: false, ..level.cells@[i] }
            } else {
                level.cells@[i]
            },
    {
        let mut level = level;
        level.enable();
        self.active_level = Some(level);
    }

    pub fn get_active_level(&self) -> (r: Option<&Level>)
        ensures
            r == match &self.active_level {
                Some(l) => Some(l),
                None => None,
            },
    {
        match &self.active_level {
            Some(l) => Some(l),
            None => None,
        }
    }

    /// Checks the row `row` of `level` after a move: the error names the
    /// rule broken and the row.
    pub fn row_move_valid(&self, level: &Level, row: i32) -> (r: Result<(), (String, i32)>)
        requires
            level.ids_fit(),
            line_check_defined(*level, level.row_ids(row as int), 1, true),
        ensures
            match line_verdict(*level, level.row_ids(row as int), row, 1, true) {
                Ok(()) => r is Ok,
                Err((e, line)) => r matches Err((text, l)) && text@ == move_error_text(e, true) && l == line,
            },
    {
        match row_verdict(level, row) {
            Ok(()) => Ok(()),
            Err((e, line)) => Err((e.message(true), line)),
        }
    }

    /// Checks the column `col` of `level` after a move: the error names the
    /// rule broken and the column.
    pub fn col_move_valid(&self, level: &Level, col: i32) -> (r: Result<(), (String, i32)>)
        requires
            level.ids_fit(),
            line_check_defined(*level, level.col_ids(col as int), level.columns as int, false),
        ensures
            match line_verdict(*level, level.col_ids(col as int), col, level.columns as int, false) {
                Ok(()) => r is Ok,
                Err((e, line)) => r matches Err((text, l)) && text@ == move_error_text(e, false) && l == line,
            },
    {
        match col_verdict(level, col) {
            Ok(()) => Ok(()),
            Err((e, line)) => Err((e.message(false), line)),
        }
    }

    /// Checks the row, then the column of cell `id` after a move there:
    /// the error names the rule broken and the row or column.
    pub fn move_valid(&self, level: &Level, id: i32) -> (r: Result<(), (String, RowColumn)>)
        requires
            level.ids_fit(),
            move_check_defined(*level, id),
        ensures
            match move_verdict(*level, id) {
                Ok(()) => r is Ok,
                Err((e, rc)) => r matches Err((text, rc2)) && text@ == move_error_text(e, rc is Row) && rc2 == rc,
            },
    {
        match judge_move(level, id) {
            Ok(()) => Ok(()),
            Err((e, rc)) => {
                let across = match rc {
                    RowColumn::Row(_) => true,
                    RowColumn::Col(_) => false,
                };
                Err((e.message(across), rc))
            },
        }
    }

    /// Whether checking a move in cell `id` of `level` stays within the
    /// level: the width is usable for the division, and no mark that the
    /// check reads points at a cell that does not exist.
    pub fn move_check_ok(&self, level: &Level, id: i32) -> (r: bool)
        requires
            level.ids_fit(),
        ensures
            r == move_check_defined(*level, id),
    {
        if level.get_cell(id).is_none() {
            return true;
        }
        let columns = level.get_columns();
        if columns == 0 || (id == i32::MIN && columns == -1) {
            return false;
        }
        let (row, col) = level.get_row_col(id).unwrap();
        let row_ids = level.get_cells_in_row(row);
        proof {
            lemma_line_ids(*level, row_ids@, level.in_row(row as int));
        }
        if !line_defined(level, &row_ids, 1, true) {
            return false;
        }
        match check_line(level, &row_ids, row, 1, true) {
            Err(_) => true,
            Ok(()) => {
                let col_ids = level.get_cells_in_col(col);
                proof {
                    lemma_line_ids(*level, col_ids@, level.in_col(col as int));
                }
                line_defined(level, &col_ids, columns, false)
            },
        }
    }

    /// Whether every existing cell holds a symbol. (A move that keeps the
    /// rules and fills the last cell solves the puzzle.)
    pub fn move_solved_puzzle(&self, level: &Level) -> (r: bool)
        requires
            level.ids_fit(),
        ensures
            r == all_cells_filled(*level),
    {
        let ids = level.get_cells();
        for k in 0..ids.len()
            invariant
                level.ids_fit(),
                ids@ == level.cell_ids(),
                ids@.len() <= level.cells@.len(),
                ids@.len() <= level.id_count(),
                forall|i: int| 0 <= i < k ==> (#[trigger] level.cells@[i]).symbol != Symbol::Empty,
        {
            let id = ids[k];
            assert(id as int == k as int);
            if level.cells[id as usize].symbol == Symbol::Empty {
                return false;
            }
        }
        true
    }
    /// Handles a click on cell `id` of the level being played: checks the
    /// move, and marks the cells of a broken row or column invalid and
    /// leaves only the clicked cell clickable, or clears those marks after
    /// a move that keeps the rules. `None` when no level is played or no
    /// cell has that id.
    pub fn on_cell_clicked(&mut self, id: i32) -> (r: Option<ClickOutcome>)
        requires
            old(self).active_level matches Some(l) ==> l.ids_fit() && move_check_defined(l, id),
        ensures
            match old(self).active_level {
                None => r is None && final(self).active_level is None,
                Some(l) => match l.cell_at(id as int) {
                    None => r is None && final(self).active_level == Some(l),
                    Some(_) => final(self).active_level matches Some(f) && f.columns == l.columns
                        && f.cell_properties@ == l.cell_properties@ && match move_verdict(l, id) {
                        Ok(()) => if all_cells_filled(l) {
                            r == Some(ClickOutcome::Solved) && f.cells@ == l.cells@
                        } else {
                            r == Some(ClickOutcome::Valid) && f.cells@ == cells_after_valid_move(
                                l.cells@,
                                l.cell_ids().len() as int,
                            )
                        },
                        Err((e, rc)) => r == Some(ClickOutcome::Invalid(e, rc)) && f.cells@
                            == cells_after_invalid_move(
                            l.cells@,
                            match rc {
                                RowColumn::Row(row) => l.row_ids(row as int),
                                RowColumn::Col(col) => l.col_ids(col as int),
                            },
                            l.cell_ids().len() as int,
                            crate::level::child_index(id as int, l.cells@.len() as int).unwrap(),
                        ),
                    },
                },
            },
    {
        let verdict = match &self.active_level {
            None => {
                return None;
            },
            Some(level) => {
                if level.get_cell(id).is_none() {
                    return None;
                }
                match judge_move(level, id) {
                    Ok(_) => {
                        if self.move_solved_puzzle(level) {
                            return Some(ClickOutcome::Solved);
                        }
                        Ok(())
                    },
                    Err(e) => Err(e),
                }
            },
        };
        match &mut self.active_level {
            None => None,
            Some(level) => {
                match verdict {
                    Ok(()) => {
                        mark_valid_move(level);
                        Some(ClickOutcome::Valid)
                    },
                    Err((err, row_or_col)) => {
                        let line_ids = match row_or_col {
                            RowColumn::Row(row) => level.get_cells_in_row(row),
                            RowColumn::Col(col) => level.get_cells_in_col(col),
                        };
                        let clicked = level.cell_position(id).unwrap();
                        proof {
                            let pred = match row_or_col {
                                RowColumn::Row(row) => level.in_row(row as int),
                                RowColumn::Col(col) => level.in_col(col as int),
                            };
                            lemma_line_ids(*level, line_ids@, pred);
                            assert forall|i: int| 0 <= i < line_ids@.len() implies 0 <= #[trigger] line_ids@[i] < level.cells@.len() by {
                                assert(level.cell_at(line_ids@[i] as int) is Some);
                                assert(line_ids@.contains(line_ids@[i]));
                                level.cell_ids().lemma_filter_contains_rev(pred, line_ids@[i]);
                            }
                        }
                        mark_invalid_move(level, &line_ids, clicked);
                        Some(ClickOutcome::Invalid(err, row_or_col))
                    },
                }
            },
        }
    }
}

} // verus!
