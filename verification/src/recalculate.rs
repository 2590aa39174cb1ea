//! Recalculating one cell from the relationships kept in a [`CellRelationships`]: its
//! formula code and its parents, in the order they were added.
use vstd::prelude::*;
use std::collections::HashSet;
use crate::cell::CellValue;
use crate::formula::{
    avg_result, count_ok, eval_max, eval_min, eval_variance, max_result, min_result, range_count, range_fn_ok,
    range_ok, rect_in_grid, stdev_result_is, sum_result, sum_value,
};
use crate::dfs::set_elements;
use crate::links::get_key;
use crate::reevaluate_topo::{apply_binop, binop, key_ok};
use crate::relationships::{CellRelationships, rel_path, rel_reaches};
use crate::spreadsheet::{CommandStatus, Spreadsheet, div_trunc, tdiv, tmod};

verus! {

broadcast use vstd::std_specs::hash::group_hash_axioms;

/// The sleep total after adding `v` seconds, a negative `v` taking time off, kept between
/// zero and `u64::MAX`.
pub open spec fn moved_sleep(t: u64, v: i32) -> u64 {
    if t + v < 0 {
        0
    } else if t + v > u64::MAX {
        u64::MAX
    } else {
        (t + v) as u64
    }
}

/// Adds `v` seconds to the sleep total as [`moved_sleep`] says.
fn move_sleep(t: u64, v: i32) -> (r: u64)
    ensures
        r == moved_sleep(t, v),
{
    if v >= 0 {
        t.saturating_add(v as u64)
    } else {
        let d: i64 = -(v as i64);
        t.saturating_sub(d as u64)
    }
}

/// The value of the operation `op` (1 `+`, 2 `-`, 3 `/`, 4 `*`) on two cell values: an
/// error when either is one.
pub open spec fn pair_result(op: int, a: CellValue, b: CellValue) -> CellValue {
    match (a, b) {
        (CellValue::Integer(x), CellValue::Integer(y)) => binop(op, x, y),
        _ => CellValue::Error,
    }
}

/// The formula codes of the four operations on two cells.
pub open spec fn is_pair_code(f: i16) -> bool {
    f == 10 || f == 20 || f == 30 || f == 40
}

/// The smallest rectangle (top row, left column, bottom row, right column) holding the
/// cells with the keys `ps` in a sheet with `cols` columns, grown from an empty one.
pub open spec fn parents_box(cols: int, ps: Seq<i32>) -> (i16, i16, i16, i16)
    decreases ps.len(),
{
    if ps.len() == 0 {
        (i16::MAX, i16::MAX, i16::MIN, i16::MIN)
    } else {
        let (a, b, c, d) = parents_box(cols, ps.drop_last());
        let r = tdiv(ps.last() as int, cols) as i16;
        let k = tmod(ps.last() as int, cols) as i16;
        (
            if r < a { r } else { a },
            if k < b { k } else { b },
            if r > c { r } else { c },
            if k > d { k } else { d },
        )
    }
}

/// Number of cells of a rectangle.
pub open spec fn box_area(b: (i16, i16, i16, i16)) -> int {
    (b.2 - b.0 + 1) * (b.3 - b.1 + 1)
}

/// The key of the top left cell of a rectangle.
pub open spec fn box_start(sheet: &Spreadsheet, b: (i16, i16, i16, i16)) -> i32 {
    (b.0 * sheet.cols + b.1) as i32
}

/// The key of the bottom right cell of a rectangle.
pub open spec fn box_end(sheet: &Spreadsheet, b: (i16, i16, i16, i16)) -> i32 {
    (b.2 * sheet.cols + b.3) as i32
}

/// What SUM (5), AVG (6), MIN (7) and MAX (8) give over the range `p1:p2`.
pub open spec fn range_result(sheet: &Spreadsheet, f: i16, p1: i32, p2: i32) -> CellValue {
    if f == 5 {
        sum_result(sheet, p1, p2)
    } else if f == 6 {
        avg_result(sheet, p1, p2)
    } else if f == 7 {
        min_result(sheet, p1, p2)
    } else {
        max_result(sheet, p1, p2)
    }
}

/// `new` is `old` with the cell with key `k` holding `v`.
pub open spec fn cell_set(old: &Spreadsheet, new: &Spreadsheet, k: int, v: CellValue) -> bool {
    &&& new.grid@ == old.grid@.update(k, v)
    &&& *new == (Spreadsheet { grid: new.grid, ..*old })
}

/// Recalculating the cell (row, col) reads only cells of the grid: the first parent of a
/// reference or a SLEEP, the first parent of an operation and the second one when the first
/// holds a number, and every parent of a range function; and the count of an AVG fits in
/// 16 bits.
pub open spec fn recalc_ok(sheet: &Spreadsheet, rels: &CellRelationships, row: i16, col: i16) -> bool {
    let k = sheet.key_of(row as int, col as int) as i32;
    let f = rels.formula_of(k);
    let ps = rels.parents_of(k);
    &&& sheet.dims_ok()
    &&& sheet.grid@.len() == sheet.rows * sheet.cols
    &&& sheet.valid_cell(row as int, col as int)
    &&& ((f == 82 || f == 102) && ps.len() > 0 ==> key_ok(sheet, ps[0]))
    &&& (is_pair_code(f) && ps.len() >= 2 ==> key_ok(sheet, ps[0]) && (sheet.grid@[ps[0] as int] is Integer
        ==> key_ok(sheet, ps[1])))
    &&& (5 <= f <= 9 ==> forall|i: int| 0 <= i < ps.len() ==> key_ok(sheet, #[trigger] ps[i]))
    &&& (f == 6 && ps.len() > 0 ==> box_area(parents_box(sheet.cols as int, ps)) <= i16::MAX)
}

/// `new` and `t1` are what recalculating the cell (row, col) of `old` makes of the sheet and
/// of the sleep total `t0`, and `st` is its answer.
///
/// - No formula (-1): nothing changes.
/// - A reference (82) takes the value of its first parent; SLEEP (102) too, and adds that
///   value, when a number, to the sleep total.
/// - An operation (10 `+`, 20 `-`, 30 `/`, 40 `*`) on its first two parents takes its
///   result, an error when either parent holds one; with fewer parents nothing changes.
/// - SUM, AVG, MIN, MAX and STDEV (5 to 9) work over the smallest rectangle that holds all
///   the parents, and give an error when there are none.
/// - Any other code is not recognized and changes nothing.
pub open spec fn recalculated(
    old: &Spreadsheet,
    new: &Spreadsheet,
    rels: &CellRelationships,
    row: i16,
    col: i16,
    t0: u64,
    t1: u64,
    st: CommandStatus,
) -> bool {
    let k = old.key_of(row as int, col as int);
    let f = rels.formula_of(k as i32);
    let ps = rels.parents_of(k as i32);
    let g = old.grid@;
    if f == -1 {
        st == CommandStatus::CmdOk && *new == *old && t1 == t0
    } else if f == 82 {
        &&& st == CommandStatus::CmdOk
        &&& t1 == t0
        &&& if ps.len() > 0 {
            cell_set(old, new, k, g[ps[0] as int])
        } else {
            *new == *old
        }
    } else if is_pair_code(f) {
        &&& st == CommandStatus::CmdOk
        &&& t1 == t0
        &&& if ps.len() >= 2 {
            cell_set(old, new, k, pair_result(f / 10, g[ps[0] as int], g[ps[1] as int]))
        } else {
            *new == *old
        }
    } else if 5 <= f <= 9 {
        &&& st == CommandStatus::CmdOk
        &&& t1 == t0
        &&& if ps.len() == 0 {
            cell_set(old, new, k, CellValue::Error)
        } else {
            let b = parents_box(old.cols as int, ps);
            let p1 = box_start(old, b);
            let p2 = box_end(old, b);
            if f == 9 {
                &&& cell_set(old, new, k, new.grid@[k])
                &&& stdev_result_is(old, k, p1, p2, new.grid@[k])
            } else {
                cell_set(old, new, k, range_result(old, f, p1, p2))
            }
        }
    } else if f == 102 {
        &&& st == CommandStatus::CmdOk
        &&& if ps.len() > 0 {
            &&& cell_set(old, new, k, g[ps[0] as int])
            &&& t1 == match g[ps[0] as int] {
                CellValue::Integer(v) => moved_sleep(t0, v),
                CellValue::Error => t0,
            }
        } else {
            *new == *old && t1 == t0
        }
    } else {
        st == CommandStatus::Unrecognized && *new == *old && t1 == t0
    }
}

/// A key of the grid is the key of its row and column, which lie in the sheet.
proof fn lemma_parent_cell(sheet: &Spreadsheet, p: i32)
    requires
        sheet.dims_ok(),
        sheet.grid@.len() == sheet.rows * sheet.cols,
        key_ok(sheet, p),
    ensures
        0 <= sheet.row_of(p as int) < sheet.rows,
        0 <= sheet.col_of(p as int) < sheet.cols,
        sheet.key_of(sheet.row_of(p as int) as int, sheet.col_of(p as int) as int) == p,
        sheet.in_grid(sheet.row_of(p as int) as int, sheet.col_of(p as int) as int),
{
    crate::spreadsheet::lemma_key_split(p as int, sheet.rows as int, sheet.cols as int);
}

/// The rectangle around keys of the grid lies in the sheet.
proof fn lemma_box_in_sheet(sheet: &Spreadsheet, ps: Seq<i32>)
    requires
        sheet.dims_ok(),
        sheet.grid@.len() == sheet.rows * sheet.cols,
        ps.len() > 0,
        forall|i: int| 0 <= i < ps.len() ==> key_ok(sheet, #[trigger] ps[i]),
    ensures
        ({
            let b = parents_box(sheet.cols as int, ps);
            &&& 0 <= b.0 <= b.2 < sheet.rows
            &&& 0 <= b.1 <= b.3 < sheet.cols
        }),
    decreases ps.len(),
{
    let p = ps.last();
    assert(key_ok(sheet, ps[ps.len() - 1]));
    lemma_parent_cell(sheet, p);
    if ps.len() > 1 {
        let d = ps.drop_last();
        assert forall|i: int| 0 <= i < d.len() implies key_ok(sheet, #[trigger] d[i]) by {
            assert(d[i] == ps[i]);
        }
        lemma_box_in_sheet(sheet, d);
    } else {
        assert(ps.drop_last() =~= Seq::<i32>::empty());
        assert(parents_box(sheet.cols as int, ps.drop_last()) == (i16::MAX, i16::MAX, i16::MIN, i16::MIN));
    }
}

/// The range from the top left to the bottom right corner of a rectangle of the sheet is
/// that rectangle, and SUM, AVG, MIN, MAX and STDEV can work over it.
proof fn lemma_box_range(sheet: &Spreadsheet, b: (i16, i16, i16, i16), row: i16, col: i16)
    requires
        sheet.dims_ok(),
        sheet.grid@.len() == sheet.rows * sheet.cols,
        sheet.valid_cell(row as int, col as int),
        0 <= b.0 <= b.2 < sheet.rows,
        0 <= b.1 <= b.3 < sheet.cols,
    ensures
        sheet.row_of(box_start(sheet, b) as int) == b.0,
        sheet.col_of(box_start(sheet, b) as int) == b.1,
        sheet.row_of(box_end(sheet, b) as int) == b.2,
        sheet.col_of(box_end(sheet, b) as int) == b.3,
        range_fn_ok(sheet, row, col, box_start(sheet, b), box_end(sheet, b)),
        count_ok(sheet, box_start(sheet, b), box_end(sheet, b)),
        range_count(sheet, box_start(sheet, b), box_end(sheet, b)) == box_area(b),
{
    let rows = sheet.rows as int;
    let cols = sheet.cols as int;
    crate::spreadsheet::lemma_key_roundtrip(b.0 as int, b.1 as int, rows, cols);
    crate::spreadsheet::lemma_key_roundtrip(b.2 as int, b.3 as int, rows, cols);
    crate::spreadsheet::lemma_key_roundtrip(row as int, col as int, rows, cols);
    assert(rows * cols <= 999 * 18278) by (nonlinear_arith)
        requires
            1 <= rows <= 999,
            1 <= cols <= 18278,
    ;
    assert forall|r: int, c: int| b.0 <= r <= b.2 && b.1 <= c <= b.3 implies #[trigger] sheet.in_grid(r, c) by {
        crate::spreadsheet::lemma_key_roundtrip(r, c, rows, cols);
    }
    assert(rect_in_grid(sheet, b.0 as int, b.2 as int, b.1 as int, b.3 as int));
    assert(range_ok(sheet, box_start(sheet, b), box_end(sheet, b)));
    assert(1 <= box_area(b) <= 999 * 18278) by (nonlinear_arith)
        requires
            0 <= b.0 <= b.2 < rows,
            0 <= b.1 <= b.3 < cols,
            rows <= 999,
            cols <= 18278,
    ;
}

/// The rectangle around the keys `ps`, row and column each the smallest and the largest
/// over the keys.
fn parents_rect(sheet: &Spreadsheet, ps: &Vec<i32>) -> (b: (i16, i16, i16, i16))
    requires
        sheet.dims_ok(),
        sheet.grid@.len() == sheet.rows * sheet.cols,
        forall|i: int| 0 <= i < ps@.len() ==> key_ok(sheet, #[trigger] ps@[i]),
    ensures
        b == parents_box(sheet.cols as int, ps@),
{
    let mut min_row: i16 = i16::MAX;
    let mut min_col: i16 = i16::MAX;
    let mut max_row: i16 = i16::MIN;
    let mut max_col: i16 = i16::MIN;
    let mut i: usize = 0;
    while i < ps.len()
        invariant
            0 <= i <= ps@.len(),
            sheet.dims_ok(),
            (min_row, min_col, max_row, max_col) == parents_box(sheet.cols as int, ps@.take(i as int)),
        decreases ps@.len() - i,
    {
        let (pr, pc) = sheet.get_row_col(ps[i]);
        proof {
            assert(ps@.take(i + 1).drop_last() =~= ps@.take(i as int));
            assert(ps@.take(i + 1).last() == ps@[i as int]);
        }
        if pr < min_row {
            min_row = pr;
        }
        if pc < min_col {
            min_col = pc;
        }
        if pr > max_row {
            max_row = pr;
        }
        if pc > max_col {
            max_col = pc;
        }
        i += 1;
    }
    proof {
        assert(ps@.take(ps@.len() as int) =~= ps@);
    }
    (min_row, min_col, max_row, max_col)
}

/// Recalculates SUM (5), AVG (6), MIN (7), MAX (8) or STDEV (9) over the smallest rectangle
/// that holds the parents `ps`, into the cell (row, col).
fn recalc_range(sheet: &mut Spreadsheet, row: i16, col: i16, f: i16, ps: &Vec<i32>)
    requires
        5 <= f <= 9,
        old(sheet).dims_ok(),
        old(sheet).grid@.len() == old(sheet).rows * old(sheet).cols,
        old(sheet).valid_cell(row as int, col as int),
        ps@.len() > 0,
        forall|i: int| 0 <= i < ps@.len() ==> key_ok(old(sheet), #[trigger] ps@[i]),
        f == 6 ==> box_area(parents_box(old(sheet).cols as int, ps@)) <= i16::MAX,
    ensures
        ({
            let k = old(sheet).key_of(row as int, col as int);
            let b = parents_box(old(sheet).cols as int, ps@);
            let p1 = box_start(old(sheet), b);
            let p2 = box_end(old(sheet), b);
            if f == 9 {
                &&& cell_set(old(sheet), final(sheet), k, final(sheet).grid@[k])
                &&& stdev_result_is(old(sheet), k, p1, p2, final(sheet).grid@[k])
            } else {
                cell_set(old(sheet), final(sheet), k, range_result(old(sheet), f, p1, p2))
            }
        }),
{
    let b = parents_rect(sheet, ps);
    proof {
        lemma_box_in_sheet(sheet, ps@);
        lemma_box_range(sheet, b, row, col);
    }
    let (min_row, min_col, max_row, max_col) = b;
    let p1 = get_key(min_row, min_col, sheet.cols);
    let p2 = get_key(max_row, max_col, sheet.cols);
    assert(p1 == box_start(old(sheet), b) && p2 == box_end(old(sheet), b));
    let ghost k = old(sheet).key_of(row as int, col as int);
    if f == 5 {
        sum_value(sheet, row, col, p1, p2);
        assert(cell_set(old(sheet), sheet, k, range_result(old(sheet), f, p1, p2)));
    } else if f == 6 {
        let ghost s0 = *sheet;
        sum_value(sheet, row, col, p1, p2);
        let count: i16 = (max_row - min_row + 1) * (max_col - min_col + 1);
        let cell = sheet.get_mut_cell(row, col);
        if let CellValue::Integer(sum) = *cell {
            *cell = CellValue::Integer(div_trunc(sum, count as i32));
        }
        proof {
            assert(range_count(&s0, p1, p2) == count);
            assert(s0 == *old(sheet));
            assert(avg_result(&s0, p1, p2) == match sum_result(&s0, p1, p2) {
                CellValue::Integer(v) => CellValue::Integer(tdiv(v as int, count as int) as i32),
                CellValue::Error => CellValue::Error,
            });
            assert(sheet.grid@ =~= s0.grid@.update(k, avg_result(&s0, p1, p2)));
        }
    } else if f == 7 {
        eval_min(sheet, row, col, p1, p2);
        assert(cell_set(old(sheet), sheet, k, range_result(old(sheet), f, p1, p2)));
    } else if f == 8 {
        eval_max(sheet, row, col, p1, p2);
        assert(cell_set(old(sheet), sheet, k, range_result(old(sheet), f, p1, p2)));
    } else {
        eval_variance(sheet, row, col, p1, p2);
    }
}

/// Recalculates the cell (row, col) from its formula code and its parents as kept in
/// `rels`, as [`recalculated`] says, adding to `sleep_time` what a SLEEP asks for.
pub fn recalculate_cell(
    sheet: &mut Spreadsheet,
    rels: &CellRelationships,
    row: i16,
    col: i16,
    sleep_time: &mut u64,
) -> (st: CommandStatus)
    requires
        recalc_ok(old(sheet), rels, row, col),
    ensures
        recalculated(old(sheet), final(sheet), rels, row, col, *old(sleep_time), *final(sleep_time), st),
{
    let ghost s0 = *sheet;
    let cols = sheet.cols;
    proof {
        crate::spreadsheet::lemma_key_roundtrip(row as int, col as int, sheet.rows as int, cols as int);
    }
    let cell_key = get_key(row, col, cols);
    let formula_code = rels.get_formula(cell_key);
    if formula_code == -1 {
        return CommandStatus::CmdOk;
    }
    if formula_code == 82 {
        let parents = rels.get_parents(cell_key);
        if parents.len() > 0 {
            let parent_key = parents[0];
            proof {
                lemma_parent_cell(sheet, parent_key);
            }
            let (parent_row, parent_col) = sheet.get_row_col(parent_key);
            let parent_value = *sheet.get_cell(parent_row, parent_col);
            *sheet.get_mut_cell(row, col) = parent_value;
        }
        CommandStatus::CmdOk
    } else if formula_code == 10 || formula_code == 20 || formula_code == 30 || formula_code == 40 {
        let parents = rels.get_parents(cell_key);
        if parents.len() >= 2 {
            let parent1_key = parents[0];
            proof {
                lemma_parent_cell(sheet, parent1_key);
            }
            let (parent1_row, parent1_col) = sheet.get_row_col(parent1_key);
            let parent1_value = match *sheet.get_cell(parent1_row, parent1_col) {
                CellValue::Integer(val) => val,
                CellValue::Error => {
                    *sheet.get_mut_cell(row, col) = CellValue::Error;
                    return CommandStatus::CmdOk;
                },
            };
            let parent2_key = parents[1];
            proof {
                lemma_parent_cell(sheet, parent2_key);
            }
            let (parent2_row, parent2_col) = sheet.get_row_col(parent2_key);
            let parent2_value = match *sheet.get_cell(parent2_row, parent2_col) {
                CellValue::Integer(val) => val,
                CellValue::Error => {
                    *sheet.get_mut_cell(row, col) = CellValue::Error;
                    return CommandStatus::CmdOk;
                },
            };
            let v = apply_binop(formula_code / 10, parent1_value, parent2_value);
            *sheet.get_mut_cell(row, col) = v;
        }
        CommandStatus::CmdOk
    } else if 5 <= formula_code && formula_code <= 9 {
        let parents = rels.get_parents(cell_key);
        if parents.len() > 0 {
            recalc_range(sheet, row, col, formula_code, &parents);
        } else {
            *sheet.get_mut_cell(row, col) = CellValue::Error;
        }
        CommandStatus::CmdOk
    } else if formula_code == 102 {
        let parents = rels.get_parents(cell_key);
        if parents.len() > 0 {
            let parent_key = parents[0];
            proof {
                lemma_parent_cell(sheet, parent_key);
            }
            let (parent_row, parent_col) = sheet.get_row_col(parent_key);
            let parent_value = *sheet.get_cell(parent_row, parent_col);
            *sheet.get_mut_cell(row, col) = parent_value;
            if let CellValue::Integer(val) = parent_value {
                *sleep_time = move_sleep(*sleep_time, val);
            }
        }
        CommandStatus::CmdOk
    } else {
        CommandStatus::Unrecognized
    }
}

/// Recalculating the cell with key `k` reads only cells of the grid, whatever the cells
/// hold: the parents its formula code reads are cells of the grid, and the count of an AVG
/// fits in 16 bits.
pub open spec fn recalc_safe(sheet: &Spreadsheet, rels: &CellRelationships, k: i32) -> bool {
    let f = rels.formula_of(k);
    let ps = rels.parents_of(k);
    &&& key_ok(sheet, k)
    &&& ((f == 82 || f == 102) && ps.len() > 0 ==> key_ok(sheet, ps[0]))
    &&& (is_pair_code(f) && ps.len() >= 2 ==> key_ok(sheet, ps[0]) && key_ok(sheet, ps[1]))
    &&& (5 <= f <= 9 ==> forall|i: int| 0 <= i < ps.len() ==> key_ok(sheet, #[trigger] ps[i]))
    &&& (f == 6 && ps.len() > 0 ==> box_area(parents_box(sheet.cols as int, ps)) <= i16::MAX)
}

/// `ss` are the sheets, `ts` the sleep totals and `sts` the answers met while
/// recalculating the cells `ord` one after another, starting from `s0` and `t0`.
pub open spec fn chain_states(
    s0: &Spreadsheet,
    rels: &CellRelationships,
    ord: Seq<i32>,
    t0: u64,
    ss: Seq<Spreadsheet>,
    ts: Seq<u64>,
    sts: Seq<CommandStatus>,
) -> bool {
    &&& ss.len() == ord.len() + 1
    &&& ts.len() == ord.len() + 1
    &&& sts.len() == ord.len()
    &&& ss[0] == *s0
    &&& ts[0] == t0
    &&& forall|i: int|
        0 <= i < ord.len() ==> #[trigger] recalculated(
            &ss[i],
            &ss[i + 1],
            rels,
            s0.row_of(ord[i] as int),
            s0.col_of(ord[i] as int),
            ts[i],
            ts[i + 1],
            sts[i],
        )
}

/// `s1` and `t1` are what recalculating the cells `ord` one after another makes of `s0` and
/// of the sleep total `t0`.
pub open spec fn recalc_chain(
    s0: &Spreadsheet,
    rels: &CellRelationships,
    ord: Seq<i32>,
    t0: u64,
    s1: &Spreadsheet,
    t1: u64,
) -> bool {
    exists|ss: Seq<Spreadsheet>, ts: Seq<u64>, sts: Seq<CommandStatus>|
        #[trigger] chain_states(s0, rels, ord, t0, ss, ts, sts) && ss.last() == *s1 && ts.last() == t1
}

/// Recalculating one more cell extends a chain of recalculations.
proof fn lemma_chain_step(
    s0: &Spreadsheet,
    rels: &CellRelationships,
    ord: Seq<i32>,
    t0: u64,
    ss: Seq<Spreadsheet>,
    ts: Seq<u64>,
    sts: Seq<CommandStatus>,
    k: i32,
    s1: &Spreadsheet,
    t1: u64,
    st: CommandStatus,
)
    requires
        chain_states(s0, rels, ord, t0, ss, ts, sts),
        recalculated(&ss.last(), s1, rels, s0.row_of(k as int), s0.col_of(k as int), ts.last(), t1, st),
    ensures
        chain_states(s0, rels, ord.push(k), t0, ss.push(*s1), ts.push(t1), sts.push(st)),
{
    let o2 = ord.push(k);
    let ss2 = ss.push(*s1);
    let ts2 = ts.push(t1);
    let sts2 = sts.push(st);
    assert forall|i: int| 0 <= i < o2.len() implies #[trigger] recalculated(
        &ss2[i],
        &ss2[i + 1],
        rels,
        s0.row_of(o2[i] as int),
        s0.col_of(o2[i] as int),
        ts2[i],
        ts2[i + 1],
        sts2[i],
    ) by {
        if i < ord.len() {
            assert(ss2[i] == ss[i] && ss2[i + 1] == ss[i + 1] && ts2[i] == ts[i] && ts2[i + 1] == ts[i + 1]);
            assert(o2[i] == ord[i] && sts2[i] == sts[i]);
        } else {
            assert(ss2[i] == ss.last() && ts2[i] == ts.last());
        }
    }
}

/// A sheet of the same size as `s0` can recalculate any cell that is safe to recalculate
/// in `s0`.
proof fn lemma_safe_recalc_ok(s0: &Spreadsheet, m: &Spreadsheet, rels: &CellRelationships, k: i32)
    requires
        s0.dims_ok(),
        s0.grid@.len() == s0.rows * s0.cols,
        m.rows == s0.rows,
        m.cols == s0.cols,
        m.grid@.len() == s0.grid@.len(),
        recalc_safe(s0, rels, k),
    ensures
        recalc_ok(m, rels, s0.row_of(k as int), s0.col_of(k as int)),
        m.key_of(s0.row_of(k as int) as int, s0.col_of(k as int) as int) == k,
{
    lemma_parent_cell(s0, k);
}

/// Recalculating a cell keeps the size of the sheet.
proof fn lemma_recalc_keeps_size(
    old: &Spreadsheet,
    new: &Spreadsheet,
    rels: &CellRelationships,
    row: i16,
    col: i16,
    t0: u64,
    t1: u64,
    st: CommandStatus,
)
    requires
        old.dims_ok(),
        old.grid@.len() == old.rows * old.cols,
        old.valid_cell(row as int, col as int),
        recalculated(old, new, rels, row, col, t0, t1, st),
    ensures
        new.rows == old.rows,
        new.cols == old.cols,
        new.grid@.len() == old.grid@.len(),
{
    crate::spreadsheet::lemma_key_roundtrip(row as int, col as int, old.rows as int, old.cols as int);
}

/// The keys from 0 up to `n`.
spec fn key_range(n: int) -> Set<i32> {
    Set::new(|k: i32| 0 <= k < n)
}

proof fn lemma_key_range(n: int)
    requires
        0 <= n <= i32::MAX,
    ensures
        key_range(n).finite(),
        key_range(n).len() == n,
    decreases n,
{
    if n == 0 {
        assert(key_range(n) =~= Set::empty());
    } else {
        lemma_key_range(n - 1);
        assert(key_range(n) =~= key_range(n - 1).insert((n - 1) as i32));
    }
}

/// A list of distinct keys of the grid is no longer than the grid.
proof fn lemma_distinct_keys_bound(q: Seq<i32>, n: int)
    requires
        0 <= n <= i32::MAX,
        q.no_duplicates(),
        forall|i: int| 0 <= i < q.len() ==> 0 <= #[trigger] q[i] < n,
    ensures
        q.len() <= n,
{
    lemma_key_range(n);
    q.unique_seq_to_set();
    assert(q.to_set().subset_of(key_range(n)));
    vstd::set_lib::lemma_len_subset(q.to_set(), key_range(n));
}

/// Every cell that depends on `start` is in a list that holds the children of `start` and
/// of each of its own cells.
proof fn lemma_closed_holds_reached(rels: &CellRelationships, start: i32, q: Seq<i32>, k: i32)
    requires
        rels.children_of(start).subset_of(q.to_set()),
        forall|i: int| 0 <= i < q.len() ==> #[trigger] rels.children_of(q[i]).subset_of(q.to_set()),
        rel_reaches(rels, start, k),
    ensures
        q.contains(k),
{
    let p = choose|p: Seq<i32>| p.len() >= 2 && p[0] == start && p.last() == k && #[trigger] rel_path(rels, p);
    assert forall|j: int| 1 <= j < p.len() implies q.contains(#[trigger] p[j]) by {
        lemma_path_in(rels, start, q, p, j);
    }
    assert(q.contains(p[p.len() - 1]));
}

proof fn lemma_path_in(rels: &CellRelationships, start: i32, q: Seq<i32>, p: Seq<i32>, j: int)
    requires
        rels.children_of(start).subset_of(q.to_set()),
        forall|i: int| 0 <= i < q.len() ==> #[trigger] rels.children_of(q[i]).subset_of(q.to_set()),
        p.len() >= 2,
        p[0] == start,
        rel_path(rels, p),
        1 <= j < p.len(),
    ensures
        q.contains(p[j]),
    decreases j,
{
    assert(rels.children_of(p[j - 1]).contains(p[j]));
    if j == 1 {
        assert(q.to_set().contains(p[j]));
    } else {
        lemma_path_in(rels, start, q, p, j - 1);
        let i = choose|i: int| 0 <= i < q.len() && q[i] == p[j - 1];
        assert(rels.children_of(q[i]).subset_of(q.to_set()));
        assert(q.to_set().contains(p[j]));
    }
}

/// A child of a cell that depends on `start` depends on `start` too.
proof fn lemma_reach_child(rels: &CellRelationships, start: i32, a: i32, c: i32)
    requires
        a == start || rel_reaches(rels, start, a),
        rels.children_of(a).contains(c),
    ensures
        rel_reaches(rels, start, c),
{
    if a == start {
        let p = seq![start, c];
        assert(rel_path(rels, p));
    } else {
        let p = choose|p: Seq<i32>| p.len() >= 2 && p[0] == start && p.last() == a && #[trigger] rel_path(rels, p);
        let p2 = p.push(c);
        assert forall|i: int| 0 <= i < p2.len() - 1 implies (#[trigger] rels.children_of(p2[i])).contains(p2[i + 1]) by {
            if i < p.len() - 1 {
                assert(p2[i] == p[i] && p2[i + 1] == p[i + 1]);
            }
        }
        assert(rel_path(rels, p2));
    }
}

/// Appends to `queue` the keys of `kids` not yet in `visited`, marking them visited.
fn enqueue_new(queue: &mut Vec<i32>, visited: &mut HashSet<i32>, kids: &Vec<i32>)
    requires
        old(visited)@ == old(queue)@.to_set(),
        old(queue)@.no_duplicates(),
    ensures
        final(visited)@ == final(queue)@.to_set(),
        final(queue)@.no_duplicates(),
        final(queue)@.subrange(0, old(queue)@.len() as int) == old(queue)@,
        final(queue)@.len() >= old(queue)@.len(),
        kids@.to_set().subset_of(final(visited)@),
        forall|i: int| old(queue)@.len() <= i < final(queue)@.len() ==> kids@.contains(#[trigger] final(queue)@[i]),
{
    let ghost q0 = queue@;
    let mut j: usize = 0;
    while j < kids.len()
        invariant
            0 <= j <= kids@.len(),
            visited@ == queue@.to_set(),
            queue@.no_duplicates(),
            queue@.len() >= q0.len(),
            queue@.subrange(0, q0.len() as int) == q0,
            kids@.take(j as int).to_set().subset_of(visited@),
            forall|i: int| q0.len() <= i < queue@.len() ==> kids@.contains(#[trigger] queue@[i]),
        decreases kids@.len() - j,
    {
        let c = kids[j];
        if !visited.contains(&c) {
            let ghost qb = queue@;
            queue.push(c);
            visited.insert(c);
            proof {
                qb.lemma_push_to_set_commute(c);
                assert(queue@.to_set() =~= qb.to_set().insert(c));
                assert forall|a: int, b: int| 0 <= a < b < queue@.len() implies queue@[a] != queue@[b] by {
                    if b == queue@.len() - 1 {
                        assert(qb.to_set().contains(qb[a]));
                    } else {
                        assert(qb[a] != qb[b]);
                    }
                }
                assert(queue@.subrange(0, q0.len() as int) =~= qb.subrange(0, q0.len() as int));
                assert(kids@.contains(kids@[j as int]));
            }
        }
        proof {
            assert(kids@.take(j + 1) =~= kids@.take(j as int).push(c));
            kids@.take(j as int).lemma_push_to_set_commute(c);
            assert(kids@.take(j + 1).to_set() =~= kids@.take(j as int).to_set().insert(c));
        }
        j += 1;
    }
    proof {
        assert(kids@.take(kids@.len() as int) =~= kids@);
    }
}

/// Recalculates every cell that depends, directly or not, on the cell with key `start_key`
/// through the children kept in `rels`: the children of `start_key` first, then their own
/// children, and so on, each cell once, adding to `sleep_time` what SLEEP asks for.
pub fn update_dependent_cells(sheet: &mut Spreadsheet, rels: &CellRelationships, start_key: i32, sleep_time: &mut u64)
    requires
        old(sheet).dims_ok(),
        old(sheet).grid@.len() == old(sheet).rows * old(sheet).cols,
        forall|k: i32| #[trigger] rel_reaches(rels, start_key, k) ==> recalc_safe(old(sheet), rels, k),
    ensures
        exists|ord: Seq<i32>|
            #![trigger recalc_chain(old(sheet), rels, ord, *old(sleep_time), final(sheet), *final(sleep_time))]
            ord.no_duplicates() && (forall|k: i32| #[trigger] ord.contains(k) <==> rel_reaches(rels, start_key, k))
                && recalc_chain(old(sheet), rels, ord, *old(sleep_time), final(sheet), *final(sleep_time)),
{
    let ghost s0 = *sheet;
    let ghost t0 = *sleep_time;
    let mut queue: Vec<i32> = Vec::new();
    let mut visited: HashSet<i32> = HashSet::new();
    let first = set_elements(&rels.get_children(start_key));
    proof {
        assert(visited@ =~= queue@.to_set());
    }
    enqueue_new(&mut queue, &mut visited, &first);
    proof {
        assert forall|k: i32| #[trigger] queue@.contains(k) implies rel_reaches(rels, start_key, k) by {
            let i = choose|i: int| 0 <= i < queue@.len() && queue@[i] == k;
            assert(first@.contains(queue@[i]));
            assert(first@.to_set().contains(k));
            lemma_reach_child(rels, start_key, start_key, k);
        }
        assert(queue@.take(0) =~= Seq::<i32>::empty());
        assert(chain_states(&s0, rels, queue@.take(0), t0, seq![s0], seq![t0], Seq::empty()));
        assert(s0.rows * s0.cols <= 999 * 18278) by (nonlinear_arith)
            requires
                1 <= s0.rows <= 999,
                1 <= s0.cols <= 18278,
        ;
    }
    let ghost mut ss: Seq<Spreadsheet> = seq![s0];
    let ghost mut ts: Seq<u64> = seq![t0];
    let ghost mut sts: Seq<CommandStatus> = Seq::empty();
    let mut head: usize = 0;
    while head < queue.len()
        invariant
            0 <= head <= queue@.len(),
            s0.dims_ok(),
            s0.grid@.len() == s0.rows * s0.cols,
            s0.grid@.len() <= i32::MAX,
            forall|k: i32| #[trigger] rel_reaches(rels, start_key, k) ==> recalc_safe(&s0, rels, k),
            visited@ == queue@.to_set(),
            queue@.no_duplicates(),
            forall|k: i32| #[trigger] queue@.contains(k) ==> rel_reaches(rels, start_key, k),
            rels.children_of(start_key).subset_of(visited@),
            forall|i: int| 0 <= i < head ==> #[trigger] rels.children_of(queue@[i]).subset_of(visited@),
            chain_states(&s0, rels, queue@.take(head as int), t0, ss, ts, sts),
            ss.last() == *sheet,
            ts.last() == *sleep_time,
            sheet.rows == s0.rows,
            sheet.cols == s0.cols,
            sheet.grid@.len() == s0.grid@.len(),
        decreases s0.grid@.len() - head,
    {
        proof {
            assert forall|i: int| 0 <= i < queue@.len() implies 0 <= #[trigger] queue@[i] < s0.grid@.len() by {
                assert(queue@.contains(queue@[i]));
                assert(recalc_safe(&s0, rels, queue@[i]));
            }
            lemma_distinct_keys_bound(queue@, s0.grid@.len() as int);
        }
        let key = queue[head];
        proof {
            assert(queue@.contains(key));
            lemma_safe_recalc_ok(&s0, sheet, rels, key);
        }
        let (row, col) = sheet.get_row_col(key);
        let ghost before = *sheet;
        let ghost tb = *sleep_time;
        let st = recalculate_cell(sheet, rels, row, col, sleep_time);
        proof {
            lemma_recalc_keeps_size(&before, sheet, rels, row, col, tb, *sleep_time, st);
            assert(row == s0.row_of(key as int) && col == s0.col_of(key as int));
            lemma_chain_step(&s0, rels, queue@.take(head as int), t0, ss, ts, sts, key, sheet, *sleep_time, st);
            assert(queue@.take(head + 1) =~= queue@.take(head as int).push(key));
            ss = ss.push(*sheet);
            ts = ts.push(*sleep_time);
            sts = sts.push(st);
        }
        let kids = set_elements(&rels.get_children(key));
        let ghost qb = queue@;
        enqueue_new(&mut queue, &mut visited, &kids);
        proof {
            assert(queue@.take(head + 1) =~= qb.take(head + 1)) by {
                assert forall|i: int| 0 <= i < head + 1 implies queue@[i] == qb[i] by {
                    assert(queue@.subrange(0, qb.len() as int)[i] == qb[i]);
                }
            }
            assert forall|i: int| 0 <= i < head + 1 implies #[trigger] rels.children_of(queue@[i]).subset_of(visited@) by {
                assert(queue@.subrange(0, qb.len() as int)[i] == qb[i]);
                if i < head {
                    assert(rels.children_of(qb[i]).subset_of(qb.to_set()));
                    assert forall|c: i32| qb.to_set().contains(c) implies queue@.to_set().contains(c) by {
                        let j = choose|j: int| 0 <= j < qb.len() && qb[j] == c;
                        assert(queue@.subrange(0, qb.len() as int)[j] == qb[j]);
                    }
                }
            }
            assert forall|c: i32| qb.to_set().contains(c) implies queue@.to_set().contains(c) by {
                let j = choose|j: int| 0 <= j < qb.len() && qb[j] == c;
                assert(queue@.subrange(0, qb.len() as int)[j] == qb[j]);
            }
            assert forall|k: i32| #[trigger] queue@.contains(k) implies rel_reaches(rels, start_key, k) by {
                let i = choose|i: int| 0 <= i < queue@.len() && queue@[i] == k;
                if i < qb.len() {
                    assert(queue@.subrange(0, qb.len() as int)[i] == qb[i]);
                    assert(qb.contains(k));
                } else {
                    assert(kids@.contains(queue@[i]));
                    assert(kids@.to_set().contains(k));
                    lemma_reach_child(rels, start_key, key, k);
                }
            }
        }
        head += 1;
    }
    proof {
        assert(queue@.take(head as int) =~= queue@);
        assert(recalc_chain(&s0, rels, queue@, t0, sheet, *sleep_time));
        assert forall|k: i32| #[trigger] queue@.contains(k) <==> rel_reaches(rels, start_key, k) by {
            if rel_reaches(rels, start_key, k) {
                lemma_closed_holds_reached(rels, start_key, queue@, k);
            }
        }
    }
}

} // verus!
