//! Re-evaluating the cells that depend on a changed cell, in dependency order.
use vstd::prelude::*;
use crate::cell::CellValue;
use crate::formula::{
    avg_result, cell_at, count_ok, eval_avg, eval_max, eval_min, eval_variance, key_rect,
    lemma_rect_vals_agree, max_result, min_result, range_count, range_ok, range_vals, seq_sum,
    stdev_result_is, sum_result, sum_value,
};
use crate::graph::{cycle_from, direct_parents, drops_range, edge, formula_kind, is_path, reaches};
use crate::dfs::{search, targets_in_grid, topo_listed};
use crate::spreadsheet::{CellMeta, Spreadsheet, div_trunc, tdiv};

verus! {

/// `a op b` for an operator code (1 `+`, 2 `-`, 4 `*`, anything else `/`). Sums, differences
/// and products wrap to 32 bits; a division by zero, or of `i32::MIN` by -1, is an error.
pub open spec fn binop(op: int, a: i32, b: i32) -> CellValue {
    if op == 1 {
        CellValue::Integer(vstd::wrapping::i32_specs::wrapping_add(a, b))
    } else if op == 2 {
        CellValue::Integer(vstd::wrapping::i32_specs::wrapping_sub(a, b))
    } else if op == 4 {
        CellValue::Integer(vstd::wrapping::i32_specs::wrapping_mul(a, b))
    } else if b == 0 || (a == i32::MIN && b == -1) {
        CellValue::Error
    } else {
        CellValue::Integer(tdiv(a as int, b as int) as i32)
    }
}

/// Computes `a op b` as [`binop`] says.
pub fn apply_binop(op: i16, a: i32, b: i32) -> (v: CellValue)
    ensures
        v == binop(op as int, a, b),
{
    if op == 1 {
        CellValue::Integer(a.wrapping_add(b))
    } else if op == 2 {
        CellValue::Integer(a.wrapping_sub(b))
    } else if op == 4 {
        CellValue::Integer(a.wrapping_mul(b))
    } else if b == 0 || (a == i32::MIN && b == -1) {
        CellValue::Error
    } else {
        CellValue::Integer(div_trunc(a, b))
    }
}

/// The key is a cell of the grid.
pub open spec fn key_ok(sheet: &Spreadsheet, k: i32) -> bool {
    0 <= k < sheet.grid@.len()
}

/// The formula `m` of the cell `x` can be evaluated without going out of the grid.
pub open spec fn meta_readable(sheet: &Spreadsheet, x: i32, m: CellMeta) -> bool {
    let rem = formula_kind(m.formula);
    &&& key_ok(sheet, x)
    &&& (rem == 0 ==> key_ok(sheet, m.parent1) && key_ok(sheet, m.parent2))
    &&& (rem == 2 ==> key_ok(sheet, m.parent1))
    &&& (rem == 3 ==> key_ok(sheet, m.parent2))
    &&& (rem != 0 && rem != 2 && rem != 3 ==> range_ok(sheet, m.parent1, m.parent2))
    &&& (rem != 0 && rem != 2 && rem != 3 && rem != 5 && rem != 7 && rem != 8 ==> count_ok(
        sheet,
        m.parent1,
        m.parent2,
    ))
}

/// The cell `x` has a formula that can be re-evaluated without going out of the grid.
pub open spec fn reeval_ok(sheet: &Spreadsheet, x: i32) -> bool {
    &&& sheet.cell_meta@.contains_key(x)
    &&& meta_readable(sheet, x, sheet.meta_of(x))
}

/// Whether the formula of `x` is STDEV as re-evaluation reads codes.
pub open spec fn is_stdev_code(f: i16) -> bool {
    let rem = formula_kind(f);
    rem != 0 && rem != 2 && rem != 3 && rem != 5 && rem != 6 && rem != 7 && rem != 8
}

/// The value re-evaluation gives the cell `x` (for every formula but STDEV).
pub open spec fn reeval_value(sheet: &Spreadsheet, x: i32) -> CellValue {
    let m = sheet.meta_of(x);
    let rem = formula_kind(m.formula);
    let op = tdiv(m.formula as int, 10);
    let g = sheet.grid@;
    if rem == 0 {
        match (g[m.parent1 as int], g[m.parent2 as int]) {
            (CellValue::Integer(a), CellValue::Integer(b)) => binop(op, a, b),
            _ => CellValue::Error,
        }
    } else if rem == 2 {
        match g[m.parent1 as int] {
            CellValue::Integer(a) => if op == 1 || op == 2 || op == 3 || op == 4 {
                binop(op, a, m.parent2)
            } else {
                CellValue::Integer(a)
            },
            CellValue::Error => CellValue::Error,
        }
    } else if rem == 3 {
        match g[m.parent2 as int] {
            CellValue::Integer(b) => binop(op, m.parent1, b),
            CellValue::Error => CellValue::Error,
        }
    } else if rem == 5 {
        sum_result(sheet, m.parent1, m.parent2)
    } else if rem == 6 {
        avg_result(sheet, m.parent1, m.parent2)
    } else if rem == 7 {
        min_result(sheet, m.parent1, m.parent2)
    } else if rem == 8 {
        max_result(sheet, m.parent1, m.parent2)
    } else {
        CellValue::Error
    }
}

/// `v` is the value re-evaluation gives the cell `x` of `sheet`.
pub open spec fn reeval_gives(sheet: &Spreadsheet, x: i32, v: CellValue) -> bool {
    let m = sheet.meta_of(x);
    if is_stdev_code(m.formula) {
        stdev_result_is(sheet, x as int, m.parent1, m.parent2, v)
    } else {
        v == reeval_value(sheet, x)
    }
}

/// Seconds of sleep that re-evaluating `x` asks for: a SLEEP formula (code 102) sleeps for
/// its parent's value when that is not negative; every other formula, a plain reference
/// included, asks for none.
pub open spec fn reeval_sleep(sheet: &Spreadsheet, x: i32) -> int {
    let m = sheet.meta_of(x);
    if m.formula == 102 {
        match sheet.grid@[m.parent1 as int] {
            CellValue::Integer(a) => if a >= 0 {
                a as int
            } else {
                0
            },
            CellValue::Error => 0,
        }
    } else {
        0
    }
}

/// Adding to the sleep total, stopping at `u64::MAX`.
pub open spec fn add_sleep(total: u64, s: int) -> u64 {
    if total + s > u64::MAX {
        u64::MAX
    } else {
        (total + s) as u64
    }
}

/// Sets the cell (row, col) to `value` and adds `value` seconds of sleep when it is not
/// negative.
pub fn sleep_fn(sheet: &mut Spreadsheet, row: i16, col: i16, value: i32, sleep_val: &mut u64)
    requires
        old(sheet).dims_ok(),
        old(sheet).in_grid(row as int, col as int),
    ensures
        final(sheet).grid@ == old(sheet).grid@.update(
            old(sheet).key_of(row as int, col as int),
            CellValue::Integer(value),
        ),
        *final(sheet) == (Spreadsheet { grid: final(sheet).grid, ..*old(sheet) }),
        *final(sleep_val) == if value >= 0 {
            add_sleep(*old(sleep_val), value as int)
        } else {
            *old(sleep_val)
        },
{
    *sheet.get_mut_cell(row, col) = CellValue::Integer(value);
    if value < 0 {
        return;
    }
    *sleep_val = sleep_val.saturating_add(value as u64);
}

/// Re-evaluates the formula of the cell (row, col) from the current values of the cells it
/// reads.
pub fn reevaluate_formula(sheet: &mut Spreadsheet, row: i16, col: i16, sleep_val: &mut u64)
    requires
        old(sheet).dims_ok(),
        old(sheet).in_grid(row as int, col as int),
        reeval_ok(old(sheet), old(sheet).key_of(row as int, col as int) as i32),
    ensures
        ({
            let x = old(sheet).key_of(row as int, col as int) as i32;
            &&& final(sheet).grid@ == old(sheet).grid@.update(x as int, final(sheet).grid@[x as int])
            &&& reeval_gives(old(sheet), x, final(sheet).grid@[x as int])
            &&& *final(sleep_val) == add_sleep(*old(sleep_val), reeval_sleep(old(sheet), x))
        }),
        *final(sheet) == (Spreadsheet { grid: final(sheet).grid, ..*old(sheet) }),
{
    proof {
        crate::spreadsheet::lemma_key_bounds(row as int, col as int, sheet.cols as int);
    }
    let ghost x = old(sheet).key_of(row as int, col as int) as i32;
    assert(x as int == old(sheet).key_of(row as int, col as int));
    let cell_meta: CellMeta = sheet.get_cell_meta_ref(row, col);
    let rem = crate::graph::rem10(cell_meta.formula);
    let msb = cell_meta.formula / 10;
    proof {
        crate::spreadsheet::lemma_tdiv_bounds(cell_meta.formula as int, 10);
        assert(msb == tdiv(cell_meta.formula as int, 10));
    }
    let parent1 = cell_meta.parent1;
    let parent2 = cell_meta.parent2;
    if rem == 0 {
        let par1 = *sheet.get_key_cell(parent1);
        let par2 = *sheet.get_key_cell(parent2);
        let v = match (par1, par2) {
            (CellValue::Integer(a), CellValue::Integer(b)) => apply_binop(msb, a, b),
            _ => CellValue::Error,
        };
        *sheet.get_mut_cell(row, col) = v;
        proof {
            assert(*old(sleep_val) == add_sleep(*old(sleep_val), 0));
        }
    } else if rem == 2 {
        let par1 = *sheet.get_key_cell(parent1);
        match par1 {
            CellValue::Integer(a) => {
                if msb == 1 || msb == 2 || msb == 3 || msb == 4 {
                    *sheet.get_mut_cell(row, col) = apply_binop(msb, a, parent2);
                    proof {
                        assert(*old(sleep_val) == add_sleep(*old(sleep_val), 0));
                    }
                } else if cell_meta.formula == 102 {
                    sleep_fn(sheet, row, col, a, sleep_val);
                    proof {
                        if a < 0 {
                            assert(*old(sleep_val) == add_sleep(*old(sleep_val), 0));
                        }
                    }
                } else {
                    *sheet.get_mut_cell(row, col) = CellValue::Integer(a);
                    proof {
                        assert(*old(sleep_val) == add_sleep(*old(sleep_val), 0));
                    }
                }
            },
            CellValue::Error => {
                *sheet.get_mut_cell(row, col) = CellValue::Error;
                proof {
                    assert(*old(sleep_val) == add_sleep(*old(sleep_val), 0));
                }
            },
        }
    } else if rem == 3 {
        let par2 = *sheet.get_key_cell(parent2);
        let v = match par2 {
            CellValue::Integer(b) => apply_binop(msb, parent1, b),
            CellValue::Error => CellValue::Error,
        };
        *sheet.get_mut_cell(row, col) = v;
        proof {
            assert(*old(sleep_val) == add_sleep(*old(sleep_val), 0));
        }
    } else {
        proof {
            assert(*old(sleep_val) == add_sleep(*old(sleep_val), 0));
        }
        if rem == 5 {
            sum_value(sheet, row, col, parent1, parent2);
        } else if rem == 6 {
            eval_avg(sheet, row, col, parent1, parent2);
        } else if rem == 7 {
            eval_min(sheet, row, col, parent1, parent2);
        } else if rem == 8 {
            eval_max(sheet, row, col, parent1, parent2);
        } else {
            eval_variance(sheet, row, col, parent1, parent2);
        }
    }
    proof {
        assert(sheet.grid@ =~= old(sheet).grid@.update(x as int, sheet.grid@[x as int]));
    }
}


/// The formula of the cell `x` reads the cell with key `k`.
pub open spec fn reads(sheet: &Spreadsheet, x: i32, k: i32) -> bool {
    let m = sheet.meta_of(x);
    let rem = formula_kind(m.formula);
    &&& 0 <= k < sheet.grid@.len()
    &&& if rem == 0 {
        k == m.parent1 || k == m.parent2
    } else if rem == 2 {
        k == m.parent1
    } else if rem == 3 {
        k == m.parent2
    } else {
        sheet.key_in_range(k as int, m.parent1 as int, m.parent2 as int)
    }
}

/// Each cell of the rectangle a range formula reads is a cell the formula reads.
proof fn lemma_range_reads(sheet: &Spreadsheet, x: i32, r: int, c: int)
    requires
        sheet.dims_ok(),
        sheet.grid@.len() == sheet.rows * sheet.cols,
        reeval_ok(sheet, x),
        ({
            let rem = formula_kind(sheet.meta_of(x).formula);
            rem != 0 && rem != 2 && rem != 3
        }),
        ({
            let m = sheet.meta_of(x);
            let (sr, er, sc, ec) = key_rect(sheet, m.parent1, m.parent2);
            sr <= r <= er && sc <= c <= ec
        }),
    ensures
        0 <= r * sheet.cols + c < sheet.grid@.len(),
        ((r * sheet.cols + c) as i32) as int == r * sheet.cols + c,
        reads(sheet, x, (r * sheet.cols + c) as i32),
{
    let m = sheet.meta_of(x);
    let cols = sheet.cols as int;
    let (sr, er, sc, ec) = key_rect(sheet, m.parent1, m.parent2);
    assert(sheet.in_grid(r, c));
    crate::spreadsheet::lemma_tdiv_bounds(m.parent2 as int, cols);
    assert(c < cols);
    assert(r < sheet.rows) by (nonlinear_arith)
        requires
            r * cols + c < sheet.rows * cols,
            0 <= c,
            0 <= r,
            cols >= 1,
    ;
    crate::spreadsheet::lemma_key_roundtrip(r, c, sheet.rows as int, cols);
    assert(sheet.rows * cols <= 999 * 18278) by (nonlinear_arith)
        requires
            1 <= sheet.rows <= 999,
            1 <= cols <= 18278,
    ;
    let k = (r * cols + c) as i32;
    assert(k as int == r * cols + c);
    assert(sheet.row_of(k as int) == r);
    assert(sheet.col_of(k as int) == c);
}

/// Re-evaluating `x` gives the same on two sheets with the same formulas whose grids agree
/// on every cell the formula of `x` reads.
pub proof fn lemma_reeval_frame(s1: &Spreadsheet, s2: &Spreadsheet, x: i32, v: CellValue)
    requires
        s1.dims_ok(),
        s1.grid@.len() == s1.rows * s1.cols,
        *s2 == (Spreadsheet { grid: s2.grid, ..*s1 }),
        s2.grid@.len() == s1.grid@.len(),
        reeval_ok(s1, x),
        forall|k: i32| #[trigger] reads(s1, x, k) ==> s1.grid@[k as int] == s2.grid@[k as int],
    ensures
        reeval_gives(s1, x, v) == reeval_gives(s2, x, v),
        reeval_sleep(s1, x) == reeval_sleep(s2, x),
{
    let m = s1.meta_of(x);
    let rem = formula_kind(m.formula);
    let cols = s1.cols as int;
    if rem == 0 {
        assert(reads(s1, x, m.parent1) && reads(s1, x, m.parent2));
    } else if rem == 2 {
        assert(reads(s1, x, m.parent1));
    } else if rem == 3 {
        assert(reads(s1, x, m.parent2));
    } else {
        let (sr, er, sc, ec) = key_rect(s1, m.parent1, m.parent2);
        assert forall|r: int, c: int| sr <= r <= er && sc <= c <= ec implies
            #[trigger] cell_at(s1.grid@, cols, r, c) == cell_at(s2.grid@, cols, r, c) by {
            lemma_range_reads(s1, x, r, c);
            let k = (r * cols + c) as i32;
            assert(reads(s1, x, k));
            assert(s1.grid@[k as int] == s2.grid@[k as int]);
        }
        lemma_rect_vals_agree(s1.grid@, s2.grid@, cols, sr, er, sc, ec);
        assert(range_vals(s1, m.parent1, m.parent2) == range_vals(s2, m.parent1, m.parent2));
        let vals = range_vals(s1, m.parent1, m.parent2);
        let n = range_count(s1, m.parent1, m.parent2);
        let mean = tdiv(seq_sum(vals) as i32 as int, n);
        let g1 = s1.grid@.update(x as int, CellValue::Integer(mean as i32));
        let g2 = s2.grid@.update(x as int, CellValue::Integer(mean as i32));
        assert forall|r: int, c: int| sr <= r <= er && sc <= c <= ec implies
            #[trigger] cell_at(g1, cols, r, c) == cell_at(g2, cols, r, c) by {
            lemma_range_reads(s1, x, r, c);
            let k = (r * cols + c) as i32;
            assert(reads(s1, x, k));
            assert(s1.grid@[k as int] == s2.grid@[k as int]);
        }
        lemma_rect_vals_agree(g1, g2, cols, sr, er, sc, ec);
    }
}


/// The first key is no lower and no further right than the second.
pub open spec fn range_ordered(sheet: &Spreadsheet, p1: i32, p2: i32) -> bool {
    sheet.row_of(p1 as int) <= sheet.row_of(p2 as int) && sheet.col_of(p1 as int) <= sheet.col_of(p2 as int)
}

/// The recorded dependencies match the formulas. A cell recorded as reading another directly
/// has a formula whose direct operands include it; a recorded range belongs to a range
/// formula over exactly that range; a cell with a recorded dependency has a formula that
/// re-evaluation can read, and has every cell its formula reads recorded.
pub open spec fn deps_ok(sheet: &Spreadsheet) -> bool {
    &&& sheet.dims_ok()
    &&& sheet.grid@.len() == sheet.rows * sheet.cols
    &&& sheet.children_finite()
    &&& forall|p: i32, c: i32|
        #[trigger] sheet.children_of(p).contains(c) ==> sheet.cell_meta@.contains_key(c)
            && direct_parents(sheet.meta_of(c)).contains(p)
    &&& forall|i: int|
        0 <= i < sheet.range_children@.len() ==> {
            let rc = #[trigger] sheet.range_children@[i];
            let m = sheet.meta_of(rc.child_key);
            &&& sheet.cell_meta@.contains_key(rc.child_key)
            &&& drops_range(m)
            &&& m.parent1 == rc.start_key
            &&& m.parent2 == rc.end_key
            &&& range_ordered(sheet, rc.start_key, rc.end_key)
        }
    &&& forall|p: i32, c: i32| #[trigger] edge(sheet, p, c) ==> reeval_ok(sheet, c)
    &&& forall|p: i32, x: i32, k: i32|
        #[trigger] edge(sheet, p, x) && #[trigger] reads(sheet, x, k) ==> edge(sheet, k, x)
}

/// The sleep total after re-evaluating the cells `ks` in turn, starting from `t`.
pub open spec fn sleep_total(sheet: &Spreadsheet, ks: Seq<i32>, t: u64) -> u64
    decreases ks.len(),
{
    if ks.len() == 0 {
        t
    } else {
        add_sleep(sleep_total(sheet, ks.drop_last(), t), reeval_sleep(sheet, ks.last()))
    }
}

proof fn lemma_sleep_total_frame(s1: &Spreadsheet, s2: &Spreadsheet, ks: Seq<i32>, t: u64)
    requires
        forall|i: int| 0 <= i < ks.len() ==> reeval_sleep(s1, #[trigger] ks[i]) == reeval_sleep(s2, ks[i]),
    ensures
        sleep_total(s1, ks, t) == sleep_total(s2, ks, t),
    decreases ks.len(),
{
    if ks.len() > 0 {
        let d = ks.drop_last();
        assert forall|i: int| 0 <= i < d.len() implies reeval_sleep(s1, #[trigger] d[i]) == reeval_sleep(s2, d[i]) by {
            assert(d[i] == ks[i]);
        }
        lemma_sleep_total_frame(s1, s2, d, t);
        assert(reeval_sleep(s1, ks[ks.len() - 1]) == reeval_sleep(s2, ks[ks.len() - 1]));
    }
}

/// A cell reached through recorded dependencies reads some cell through one.
proof fn lemma_reached_has_edge(sheet: &Spreadsheet, a: i32, b: i32)
    requires
        reaches(sheet, a, b),
    ensures
        exists|p: i32| #[trigger] edge(sheet, p, b),
{
    let path = choose|path: Seq<i32>| path.len() >= 2 && path[0] == a && path.last() == b && #[trigger] is_path(sheet, path);
    assert(edge(sheet, path[path.len() - 2], path[path.len() - 2 + 1]));
}

pub(crate) proof fn lemma_reeval_ok_same(s1: &Spreadsheet, s2: &Spreadsheet, x: i32)
    requires
        *s2 == (Spreadsheet { grid: s2.grid, ..*s1 }),
        s2.grid@.len() == s1.grid@.len(),
        reeval_ok(s1, x),
    ensures
        reeval_ok(s2, x),
        forall|k: i32| reads(s2, x, k) == reads(s1, x, k),
{
    assert forall|r: int, c: int| s1.in_grid(r, c) == s2.in_grid(r, c) by {}
    assert(s1.meta_of(x) == s2.meta_of(x));
}

/// Re-evaluating a listed cell does not disturb the cells listed at or after it, as none of
/// them reads it.
proof fn lemma_unaffected(s0: &Spreadsheet, cur: &Spreadsheet, nxt: &Spreadsheet, order: Seq<i32>, i: int, j: int, start: i32)
    requires
        deps_ok(s0),
        *cur == (Spreadsheet { grid: cur.grid, ..*s0 }),
        cur.grid@.len() == s0.grid@.len(),
        *nxt == (Spreadsheet { grid: nxt.grid, ..*s0 }),
        nxt.grid@.len() == s0.grid@.len(),
        0 <= i <= j < order.len(),
        0 <= order[i] < s0.grid@.len(),
        nxt.grid@ == cur.grid@.update(order[i] as int, nxt.grid@[order[i] as int]),
        forall|k: i32| #[trigger] order.contains(k) ==> reaches(s0, start, k),
        topo_listed(s0, order),
    ensures
        forall|v: CellValue| #[trigger] reeval_gives(cur, order[j], v) == reeval_gives(nxt, order[j], v),
        reeval_sleep(cur, order[j]) == reeval_sleep(nxt, order[j]),
{
    let y = order[j];
    let key = order[i];
    assert(order.contains(y));
    lemma_reached_has_edge(s0, start, y);
    let p = choose|p: i32| #[trigger] edge(s0, p, y);
    assert(reeval_ok(s0, y));
    lemma_reeval_ok_same(s0, cur, y);
    assert forall|k: i32| #[trigger] reads(cur, y, k) implies cur.grid@[k as int] == nxt.grid@[k as int] by {
        assert(reads(s0, y, k));
        assert(edge(s0, p, y));
        if k == key {
            assert(edge(s0, order[i], order[j]));
        }
    }
    assert(*nxt == (Spreadsheet { grid: nxt.grid, ..*cur }));
    assert forall|v: CellValue| #[trigger] reeval_gives(cur, y, v) == reeval_gives(nxt, y, v) by {
        lemma_reeval_frame(cur, nxt, y, v);
    }
    lemma_reeval_frame(cur, nxt, y, CellValue::Error);
}

/// `after` is `before` with every cell that `x` reaches through recorded dependencies
/// holding the value re-evaluation gives it and every other cell as it was; the sleep total
/// went from `t0` to `t1` by the sleep of re-evaluating the reached cells one after another.
pub open spec fn reevaluated(before: &Spreadsheet, after: &Spreadsheet, x: i32, t0: u64, t1: u64) -> bool {
    &&& forall|k: i32| #[trigger] reaches(before, x, k) ==> reeval_gives(after, k, after.grid@[k as int])
    &&& forall|k: i32|
        0 <= k < before.grid@.len() && !reaches(before, x, k) ==> #[trigger] after.grid@[k as int]
            == before.grid@[k as int]
    &&& exists|ord: Seq<i32>|
        #![trigger sleep_total(after, ord, t0)]
        ord.no_duplicates() && (forall|k: i32| #[trigger] ord.contains(k) <==> reaches(before, x, k))
            && t1 == sleep_total(after, ord, t0)
}

/// Re-evaluates every cell that depends, directly or not, on the cell (row, col), each after
/// the cells it reads, and adds the sleep their formulas ask for. When those cells depend on
/// each other in a ring, nothing changes and the result is `true`.
#[verifier::rlimit(40)]
pub fn toposort_reval_detect_cycle(sheet: &mut Spreadsheet, row: i16, col: i16, sleep_val: &mut u64) -> (cyc: bool)
    requires
        deps_ok(old(sheet)),
    ensures
        ({
            let s0 = old(sheet);
            let start = s0.key_of(row as int, col as int) as i32;
            &&& cyc == cycle_from(s0, start)
            &&& cyc ==> *final(sheet) == *old(sheet) && *final(sleep_val) == *old(sleep_val)
            &&& !cyc ==> reevaluated(s0, final(sheet), start, *old(sleep_val), *final(sleep_val))
        }),
        final(sheet).grid@.len() == old(sheet).grid@.len(),
        *final(sheet) == (Spreadsheet { grid: final(sheet).grid, ..*old(sheet) }),
{
    let ghost s0 = *sheet;
    let ghost t0 = *sleep_val;
    proof {
        crate::spreadsheet::lemma_key_bounds(row as int, col as int, sheet.cols as int);
        assert(s0.rows * s0.cols <= 999 * 18278) by (nonlinear_arith)
            requires
                1 <= s0.rows <= 999,
                1 <= s0.cols <= 18278,
        ;
        assert forall|p: i32, c: i32| #[trigger] edge(&s0, p, c) implies 0 <= c < s0.grid@.len() by {
            assert(reeval_ok(&s0, c));
        }
        assert(targets_in_grid(&s0));
    }
    let start = sheet.get_key(row, col);
    let order = match search(sheet, start) {
        None => {
            return true;
        },
        Some(o) => o,
    };
    let ghost n = order@.len();
    let mut i: usize = order.len();
    proof {
        assert(order@.subrange(i as int, n as int).reverse() =~= Seq::<i32>::empty());
    }
    while i > 0
        invariant
            deps_ok(&s0),
            *sheet == (Spreadsheet { grid: sheet.grid, ..s0 }),
            sheet.grid@.len() == s0.grid@.len(),
            n == order@.len(),
            0 <= i <= n,
            order@.no_duplicates(),
            forall|k: i32| #[trigger] order@.contains(k) <==> reaches(&s0, start, k),
            topo_listed(&s0, order@),
            forall|j: int| 0 <= j < n ==> 0 <= #[trigger] order@[j] < s0.grid@.len(),
            forall|j: int| i <= j < n ==> reeval_gives(sheet, #[trigger] order@[j], sheet.grid@[order@[j] as int]),
            forall|k: i32|
                0 <= k < s0.grid@.len() && !order@.subrange(i as int, n as int).contains(k) ==> #[trigger] sheet.grid@[k as int]
                    == s0.grid@[k as int],
            *sleep_val == sleep_total(sheet, order@.subrange(i as int, n as int).reverse(), t0),
        decreases i,
    {
        i -= 1;
        let key = order[i];
        let ghost cur = *sheet;
        let ghost sl = *sleep_val;
        proof {
            assert(order@.contains(key));
            lemma_reached_has_edge(&s0, start, key);
            let p = choose|p: i32| #[trigger] edge(&s0, p, key);
            assert(reeval_ok(&s0, key));
            crate::spreadsheet::lemma_key_split(key as int, s0.rows as int, s0.cols as int);
            crate::spreadsheet::lemma_tdiv_bounds(key as int, s0.cols as int);
        }
        let (r, c) = sheet.get_row_col(key);
        proof {
            assert(cur.key_of(r as int, c as int) == key);
            lemma_reeval_ok_same(&s0, &cur, key);
        }
        reevaluate_formula(sheet, r, c, sleep_val);
        proof {
            let nxt = *sheet;
            let v = nxt.grid@[key as int];
            assert(nxt.grid@ == cur.grid@.update(key as int, v));
            assert forall|j: int| i <= j < n implies reeval_gives(&nxt, #[trigger] order@[j], nxt.grid@[order@[j] as int]) by {
                lemma_unaffected(&s0, &cur, &nxt, order@, i as int, j, start);
                if j > i {
                    assert(order@[j] != key);
                }
            }
            assert forall|k: i32|
                0 <= k < s0.grid@.len() && !order@.subrange(i as int, n as int).contains(k) implies #[trigger] nxt.grid@[k as int]
                    == s0.grid@[k as int] by {
                assert(order@.subrange(i as int, n as int)[0] == key);
                let tail = order@.subrange(i + 1, n as int);
                if tail.contains(k) {
                    let a = choose|a: int| 0 <= a < tail.len() && tail[a] == k;
                    assert(order@.subrange(i as int, n as int)[a + 1] == k);
                }
            }
            let done = order@.subrange(i + 1, n as int).reverse();
            let done2 = order@.subrange(i as int, n as int).reverse();
            assert(done2 =~= done.push(key));
            assert forall|m: int| 0 <= m < done.len() implies reeval_sleep(&cur, #[trigger] done[m]) == reeval_sleep(&nxt, done[m]) by {
                let j = n - 1 - m;
                assert(done[m] == order@[j]);
                lemma_unaffected(&s0, &cur, &nxt, order@, i as int, j, start);
            }
            lemma_sleep_total_frame(&cur, &nxt, done, t0);
            lemma_unaffected(&s0, &cur, &nxt, order@, i as int, i as int, start);
            assert(done2.drop_last() =~= done);
            assert(done2.last() == key);
            assert(*sleep_val == add_sleep(sl, reeval_sleep(&cur, key)));
            assert(sleep_total(&nxt, done2, t0) == add_sleep(sleep_total(&nxt, done, t0), reeval_sleep(&nxt, key)));
        }
    }
    proof {
        let fin = *sheet;
        assert(order@.subrange(0, n as int) =~= order@);
        assert forall|k: i32| #[trigger] reaches(&s0, start, k) implies reeval_gives(&fin, k, fin.grid@[k as int]) by {
            assert(order@.contains(k));
            let j = choose|j: int| 0 <= j < n && order@[j] == k;
            assert(reeval_gives(&fin, order@[j], fin.grid@[order@[j] as int]));
        }
        let ord = order@.reverse();
        assert(ord.no_duplicates()) by {
            assert forall|a: int, b: int| 0 <= a < ord.len() && 0 <= b < ord.len() && a != b implies ord[a] != ord[b] by {
                assert(ord[a] == order@[n - 1 - a] && ord[b] == order@[n - 1 - b]);
            }
        }
        assert forall|k: i32| #[trigger] ord.contains(k) <==> reaches(&s0, start, k) by {
            if ord.contains(k) {
                let a = choose|a: int| 0 <= a < ord.len() && ord[a] == k;
                assert(order@[n - 1 - a] == k);
            }
            if order@.contains(k) {
                let a = choose|a: int| 0 <= a < n && order@[a] == k;
                assert(ord[n - 1 - a] == k);
            }
        }
        assert(*sleep_val == sleep_total(&fin, ord, t0));
    }
    false
}

} // verus!
