//! Ranges and the range functions SUM, AVG, MIN, MAX and STDEV.
use vstd::prelude::*;
use crate::cell::{CellValue, cell_ref_spec, parse_cell_ref_chars};
use crate::spreadsheet::{CommandStatus, Spreadsheet, tdiv, div_trunc};
use crate::text::chars_of;

verus! {

/// A rectangle of cells, corners included.
#[derive(Debug, Clone, Copy, PartialEq, Eq, Structural)]
pub struct Range {
    pub start_row: i16,
    pub start_col: i16,
    pub end_row: i16,
    pub end_col: i16,
}

impl Range {
    /// Whether the cell (r, c) lies in the rectangle.
    pub open spec fn contains(&self, r: int, c: int) -> bool {
        self.start_row <= r <= self.end_row && self.start_col <= c <= self.end_col
    }
}

/// The values of row `r` from column `sc` to `ec`.
pub open spec fn row_vals(g: Seq<CellValue>, cols: int, r: int, sc: int, ec: int) -> Seq<CellValue> {
    if ec < sc {
        seq![]
    } else {
        Seq::new((ec - sc + 1) as nat, |j: int| g[r * cols + sc + j])
    }
}

/// The values of the rectangle rows `sr..=er`, columns `sc..=ec`, row by row.
pub open spec fn rect_vals(g: Seq<CellValue>, cols: int, sr: int, er: int, sc: int, ec: int) -> Seq<CellValue>
    decreases er + 1 - sr,
{
    if er < sr {
        seq![]
    } else {
        rect_vals(g, cols, sr, er - 1, sc, ec) + row_vals(g, cols, er, sc, ec)
    }
}

pub open spec fn has_error(s: Seq<CellValue>) -> bool {
    exists|i: int| 0 <= i < s.len() && s[i] is Error
}

pub open spec fn int_of(v: CellValue) -> int {
    match v {
        CellValue::Integer(x) => x as int,
        CellValue::Error => 0,
    }
}

/// Sum of the integer values.
pub open spec fn seq_sum(s: Seq<CellValue>) -> int
    decreases s.len(),
{
    if s.len() == 0 {
        0
    } else {
        seq_sum(s.drop_last()) + int_of(s.last())
    }
}

/// Least value, starting from `i32::MAX`.
pub open spec fn seq_min(s: Seq<CellValue>) -> int
    decreases s.len(),
{
    if s.len() == 0 {
        i32::MAX as int
    } else {
        let m = seq_min(s.drop_last());
        if int_of(s.last()) < m {
            int_of(s.last())
        } else {
            m
        }
    }
}

/// Greatest value, starting from `i32::MIN`.
pub open spec fn seq_max(s: Seq<CellValue>) -> int
    decreases s.len(),
{
    if s.len() == 0 {
        i32::MIN as int
    } else {
        let m = seq_max(s.drop_last());
        if int_of(s.last()) > m {
            int_of(s.last())
        } else {
            m
        }
    }
}

/// Sum of squared distances of the integer values from `mean`; errors are skipped.
pub open spec fn sq_dev(s: Seq<CellValue>, mean: int) -> int
    decreases s.len(),
{
    if s.len() == 0 {
        0
    } else {
        match s.last() {
            CellValue::Integer(x) => sq_dev(s.drop_last(), mean) + (x - mean) * (x - mean),
            CellValue::Error => sq_dev(s.drop_last(), mean),
        }
    }
}

/// `k` is the square root of `s / n` rounded to the nearest integer (halves up), capped at
/// `i32::MAX`: `k - 1/2 <= sqrt(s / n) < k + 1/2`.
pub open spec fn is_rounded_sqrt(s: int, n: int, k: int) -> bool {
    &&& 0 <= k <= i32::MAX
    &&& (k == 0 || n * ((2 * k - 1) * (2 * k - 1)) <= 4 * s)
    &&& (k == i32::MAX || n * ((2 * k + 1) * (2 * k + 1)) > 4 * s)
}

/// The rectangle spanned by the keys `p1` and `p2` in `sheet`.
pub open spec fn key_rect(sheet: &Spreadsheet, p1: i32, p2: i32) -> (int, int, int, int) {
    (
        sheet.row_of(p1 as int) as int,
        sheet.row_of(p2 as int) as int,
        sheet.col_of(p1 as int) as int,
        sheet.col_of(p2 as int) as int,
    )
}

/// Every cell of the rectangle can be read from the grid.
pub open spec fn rect_in_grid(sheet: &Spreadsheet, sr: int, er: int, sc: int, ec: int) -> bool {
    forall|r: int, c: int| sr <= r <= er && sc <= c <= ec ==> #[trigger] sheet.in_grid(r, c)
}

/// The values read by a range function whose range is `p1:p2`.
pub open spec fn range_vals(sheet: &Spreadsheet, p1: i32, p2: i32) -> Seq<CellValue> {
    let (sr, er, sc, ec) = key_rect(sheet, p1, p2);
    rect_vals(sheet.grid@, sheet.cols as int, sr, er, sc, ec)
}

/// The range `p1:p2` can be read.
pub open spec fn range_ok(sheet: &Spreadsheet, p1: i32, p2: i32) -> bool {
    let (sr, er, sc, ec) = key_rect(sheet, p1, p2);
    rect_in_grid(sheet, sr, er, sc, ec)
}

/// Number of cells of the range `p1:p2` as AVG and STDEV count them.
pub open spec fn range_count(sheet: &Spreadsheet, p1: i32, p2: i32) -> int {
    let (sr, er, sc, ec) = key_rect(sheet, p1, p2);
    (er - sr + 1) * (ec - sc + 1)
}

/// AVG and STDEV can count the range `p1:p2` without overflow and divide by the count.
pub open spec fn count_ok(sheet: &Spreadsheet, p1: i32, p2: i32) -> bool {
    let (sr, er, sc, ec) = key_rect(sheet, p1, p2);
    &&& i16::MIN <= er - sr < i16::MAX
    &&& i16::MIN <= ec - sc < i16::MAX
    &&& i32::MIN <= range_count(sheet, p1, p2) <= i32::MAX
    &&& range_count(sheet, p1, p2) != 0
}

/// The value of SUM over `p1:p2`: an error if any cell is an error, else the sum
/// wrapped to 32 bits.
pub open spec fn sum_result(sheet: &Spreadsheet, p1: i32, p2: i32) -> CellValue {
    let v = range_vals(sheet, p1, p2);
    if has_error(v) {
        CellValue::Error
    } else {
        CellValue::Integer(seq_sum(v) as i32)
    }
}

pub open spec fn min_result(sheet: &Spreadsheet, p1: i32, p2: i32) -> CellValue {
    let v = range_vals(sheet, p1, p2);
    if has_error(v) {
        CellValue::Error
    } else {
        CellValue::Integer(seq_min(v) as i32)
    }
}

pub open spec fn max_result(sheet: &Spreadsheet, p1: i32, p2: i32) -> CellValue {
    let v = range_vals(sheet, p1, p2);
    if has_error(v) {
        CellValue::Error
    } else {
        CellValue::Integer(seq_max(v) as i32)
    }
}

/// AVG: the wrapped sum divided by the count, rounding toward zero.
pub open spec fn avg_result(sheet: &Spreadsheet, p1: i32, p2: i32) -> CellValue {
    let v = range_vals(sheet, p1, p2);
    if has_error(v) {
        CellValue::Error
    } else {
        CellValue::Integer(tdiv(seq_sum(v) as i32 as int, range_count(sheet, p1, p2)) as i32)
    }
}

/// STDEV writes the mean into the target cell, then rounds the square root of the mean
/// squared deviation of the range as it now reads. `k` is the result.
pub open spec fn stdev_result_is(sheet: &Spreadsheet, t: int, p1: i32, p2: i32, k: CellValue) -> bool {
    let v = range_vals(sheet, p1, p2);
    let n = range_count(sheet, p1, p2);
    if has_error(v) {
        k == CellValue::Error
    } else {
        let mean = tdiv(seq_sum(v) as i32 as int, n);
        let (sr, er, sc, ec) = key_rect(sheet, p1, p2);
        let g1 = sheet.grid@.update(t, CellValue::Integer(mean as i32));
        let s = sq_dev(rect_vals(g1, sheet.cols as int, sr, er, sc, ec), mean);
        if n > 0 {
            k matches CellValue::Integer(x) && is_rounded_sqrt(s, n, x as int)
        } else {
            k == CellValue::Integer(0)
        }
    }
}

pub proof fn lemma_row_vals_push(g: Seq<CellValue>, cols: int, r: int, sc: int, c: int)
    requires
        sc <= c,
    ensures
        row_vals(g, cols, r, sc, c) == row_vals(g, cols, r, sc, c - 1).push(g[r * cols + c]),
{
    assert(row_vals(g, cols, r, sc, c) =~= row_vals(g, cols, r, sc, c - 1).push(g[r * cols + c]));
}

pub proof fn lemma_seq_sum_bound(s: Seq<CellValue>)
    ensures
        -(s.len() * 2147483648) <= seq_sum(s) <= s.len() * 2147483648,
    decreases s.len(),
{
    if s.len() > 0 {
        lemma_seq_sum_bound(s.drop_last());
    }
}

pub proof fn lemma_seq_min_max_bounds(s: Seq<CellValue>)
    ensures
        i32::MIN <= seq_min(s) <= i32::MAX,
        i32::MIN <= seq_max(s) <= i32::MAX,
    decreases s.len(),
{
    if s.len() > 0 {
        lemma_seq_min_max_bounds(s.drop_last());
    }
}

pub proof fn lemma_has_error_push(s: Seq<CellValue>, v: CellValue)
    ensures
        has_error(s.push(v)) == (has_error(s) || v is Error),
{
    let t = s.push(v);
    if has_error(s) {
        let i = choose|i: int| 0 <= i < s.len() && s[i] is Error;
        assert(t[i] == s[i]);
    }
    if has_error(t) {
        let i = choose|i: int| 0 <= i < t.len() && t[i] is Error;
        if i < s.len() {
            assert(t[i] == s[i]);
        }
    }
    if v is Error {
        assert(t[s.len() as int] == v);
    }
}

pub proof fn lemma_has_error_concat(a: Seq<CellValue>, b: Seq<CellValue>)
    ensures
        has_error(a + b) == (has_error(a) || has_error(b)),
{
    let t = a + b;
    if has_error(a) {
        let i = choose|i: int| 0 <= i < a.len() && a[i] is Error;
        assert(t[i] == a[i]);
    }
    if has_error(b) {
        let i = choose|i: int| 0 <= i < b.len() && b[i] is Error;
        assert(t[a.len() + i] == b[i]);
    }
    if has_error(t) {
        let i = choose|i: int| 0 <= i < t.len() && t[i] is Error;
        if i < a.len() {
            assert(t[i] == a[i]);
        } else {
            assert(t[i] == b[i - a.len()]);
        }
    }
}

/// Result of reading a rectangle once: whether an error was met, and otherwise the
/// exact sum, the least and the greatest value.
pub struct RectScan {
    pub error: bool,
    pub sum: i128,
    pub min: i32,
    pub max: i32,
}

/// Reads the rectangle rows `sr..=er`, columns `sc..=ec` row by row, stopping at the first
/// error.
pub fn scan_rect(sheet: &Spreadsheet, sr: i16, er: i16, sc: i16, ec: i16) -> (res: RectScan)
    requires
        sheet.dims_ok(),
        rect_in_grid(sheet, sr as int, er as int, sc as int, ec as int),
    ensures
        res.error == has_error(rect_vals(sheet.grid@, sheet.cols as int, sr as int, er as int, sc as int, ec as int)),
        !res.error ==> {
            let v = rect_vals(sheet.grid@, sheet.cols as int, sr as int, er as int, sc as int, ec as int);
            &&& res.sum == seq_sum(v)
            &&& res.min == seq_min(v)
            &&& res.max == seq_max(v)
        },
{
    let ghost g = sheet.grid@;
    let ghost cols = sheet.cols as int;
    let mut sum: i128 = 0;
    let mut mn: i32 = i32::MAX;
    let mut mx: i32 = i32::MIN;
    let mut n: u64 = 0;
    let mut r: i32 = sr as i32;
    while r <= er as i32
        invariant
            sheet.dims_ok(),
            rect_in_grid(sheet, sr as int, er as int, sc as int, ec as int),
            g == sheet.grid@,
            cols == sheet.cols as int,
            sr <= r <= er + 1 || (r == sr && er < sr),
            n == rect_vals(g, cols, sr as int, r - 1, sc as int, ec as int).len(),
            n <= (r - sr) * 65536,
            !has_error(rect_vals(g, cols, sr as int, r - 1, sc as int, ec as int)),
            sum == seq_sum(rect_vals(g, cols, sr as int, r - 1, sc as int, ec as int)),
            mn == seq_min(rect_vals(g, cols, sr as int, r - 1, sc as int, ec as int)),
            mx == seq_max(rect_vals(g, cols, sr as int, r - 1, sc as int, ec as int)),
        decreases er + 1 - r,
    {
        let ghost before = rect_vals(g, cols, sr as int, r - 1, sc as int, ec as int);
        let mut c: i32 = sc as i32;
        while c <= ec as i32
            invariant
                sheet.dims_ok(),
                rect_in_grid(sheet, sr as int, er as int, sc as int, ec as int),
                g == sheet.grid@,
                cols == sheet.cols as int,
                sr <= r <= er,
                sc <= c <= ec + 1 || (c == sc && ec < sc),
                before == rect_vals(g, cols, sr as int, r - 1, sc as int, ec as int),
                n == before.len() + row_vals(g, cols, r as int, sc as int, c - 1).len(),
                n <= (r - sr) * 65536 + (c - sc),
                !has_error(before + row_vals(g, cols, r as int, sc as int, c - 1)),
                sum == seq_sum(before + row_vals(g, cols, r as int, sc as int, c - 1)),
                mn == seq_min(before + row_vals(g, cols, r as int, sc as int, c - 1)),
                mx == seq_max(before + row_vals(g, cols, r as int, sc as int, c - 1)),
            decreases ec + 1 - c,
        {
            let ghost prev = before + row_vals(g, cols, r as int, sc as int, c - 1);
            proof {
                assert(sheet.in_grid(r as int, c as int));
                lemma_row_vals_push(g, cols, r as int, sc as int, c as int);
                assert(before + row_vals(g, cols, r as int, sc as int, c as int) =~= prev.push(
                    g[r * cols + c],
                ));
                lemma_has_error_push(prev, g[r * cols + c]);
                lemma_seq_sum_bound(prev);
                assert(prev.push(g[r * cols + c]).drop_last() =~= prev);
            }
            let v = *sheet.get_cell(r as i16, c as i16);
            match v {
                CellValue::Integer(x) => {
                    sum = sum + x as i128;
                    if x < mn {
                        mn = x;
                    }
                    if x > mx {
                        mx = x;
                    }
                },
                CellValue::Error => {
                    proof {
                        lemma_rect_error_grows(g, cols, sr as int, er as int, r as int, sc as int, ec as int, c as int);
                    }
                    return RectScan { error: true, sum: 0, min: 0, max: 0 };
                },
            }
            n = n + 1;
            c = c + 1;
        }
        proof {
            if ec < sc {
                assert(row_vals(g, cols, r as int, sc as int, c - 1) =~= seq![]);
                assert(row_vals(g, cols, r as int, sc as int, ec as int) =~= seq![]);
            }
            assert(rect_vals(g, cols, sr as int, r as int, sc as int, ec as int) == before
                + row_vals(g, cols, r as int, sc as int, ec as int));
        }
        r = r + 1;
    }
    proof {
        if er < sr {
            assert(rect_vals(g, cols, sr as int, r - 1, sc as int, ec as int) =~= seq![]);
        }
    }
    RectScan { error: false, sum, min: mn, max: mx }
}

/// An error met while reading makes the whole rectangle contain an error.
pub proof fn lemma_rect_error_grows(
    g: Seq<CellValue>,
    cols: int,
    sr: int,
    er: int,
    r: int,
    sc: int,
    ec: int,
    c: int,
)
    requires
        sr <= r <= er,
        sc <= c <= ec,
        g[r * cols + c] is Error,
    ensures
        has_error(rect_vals(g, cols, sr, er, sc, ec)),
    decreases er - r,
{
    if er == r {
        let row = row_vals(g, cols, r, sc, ec);
        assert(row[c - sc] == g[r * cols + c]);
        lemma_has_error_concat(rect_vals(g, cols, sr, er - 1, sc, ec), row);
    } else {
        lemma_rect_error_grows(g, cols, sr, er - 1, r, sc, ec, c);
        lemma_has_error_concat(rect_vals(g, cols, sr, er - 1, sc, ec), row_vals(g, cols, er, sc, ec));
    }
}

/// The cell of row `r`, column `c` of a grid with `cols` columns.
pub open spec fn cell_at(g: Seq<CellValue>, cols: int, r: int, c: int) -> CellValue {
    g[r * cols + c]
}

/// Two grids that agree on every cell of a rectangle read the same values from it.
pub proof fn lemma_rect_vals_agree(g: Seq<CellValue>, h: Seq<CellValue>, cols: int, sr: int, er: int, sc: int, ec: int)
    requires
        forall|r: int, c: int|
            sr <= r <= er && sc <= c <= ec ==> #[trigger] cell_at(g, cols, r, c) == cell_at(h, cols, r, c),
    ensures
        rect_vals(g, cols, sr, er, sc, ec) == rect_vals(h, cols, sr, er, sc, ec),
    decreases er + 1 - sr,
{
    if er >= sr {
        lemma_rect_vals_agree(g, h, cols, sr, er - 1, sc, ec);
        assert(row_vals(g, cols, er, sc, ec) =~= row_vals(h, cols, er, sc, ec)) by {
            if ec >= sc {
                assert forall|j: int| 0 <= j < ec - sc + 1 implies #[trigger] row_vals(g, cols, er, sc, ec)[j] == row_vals(h, cols, er, sc, ec)[j] by {
                    assert(er * cols + sc + j == er * cols + (sc + j));
                    assert(cell_at(g, cols, er, sc + j) == cell_at(h, cols, er, sc + j));
                }
            }
        }
    }
}

/// Where SUM, AVG, MIN, MAX and STDEV may read and write: the range can be read and the
/// target cell is in the grid.
pub open spec fn range_fn_ok(sheet: &Spreadsheet, row: i16, col: i16, p1: i32, p2: i32) -> bool {
    &&& sheet.dims_ok()
    &&& range_ok(sheet, p1, p2)
    &&& sheet.in_grid(row as int, col as int)
}

/// Writes `SUM(p1:p2)` into the cell (row, col).
pub fn sum_value(sheet: &mut Spreadsheet, row: i16, col: i16, parent1: i32, parent2: i32) -> (st: CommandStatus)
    requires
        range_fn_ok(old(sheet), row, col, parent1, parent2),
    ensures
        st == CommandStatus::CmdOk,
        final(sheet).grid@ == old(sheet).grid@.update(
            old(sheet).key_of(row as int, col as int),
            sum_result(old(sheet), parent1, parent2),
        ),
        *final(sheet) == (Spreadsheet { grid: final(sheet).grid, ..*old(sheet) }),
{
    let (start_row, start_col) = sheet.get_row_col(parent1);
    let (end_row, end_col) = sheet.get_row_col(parent2);
    let scan = scan_rect(sheet, start_row, end_row, start_col, end_col);
    if scan.error {
        *sheet.get_mut_cell(row, col) = CellValue::Error;
    } else {
        let v = #[verifier::truncate] (scan.sum as i32);
        *sheet.get_mut_cell(row, col) = CellValue::Integer(v);
    }
    CommandStatus::CmdOk
}

/// Writes `MIN(p1:p2)` into the cell (row, col).
pub fn eval_min(sheet: &mut Spreadsheet, row: i16, col: i16, parent1: i32, parent2: i32) -> (st: CommandStatus)
    requires
        range_fn_ok(old(sheet), row, col, parent1, parent2),
    ensures
        st == CommandStatus::CmdOk,
        final(sheet).grid@ == old(sheet).grid@.update(
            old(sheet).key_of(row as int, col as int),
            min_result(old(sheet), parent1, parent2),
        ),
        *final(sheet) == (Spreadsheet { grid: final(sheet).grid, ..*old(sheet) }),
{
    let (start_row, start_col) = sheet.get_row_col(parent1);
    let (end_row, end_col) = sheet.get_row_col(parent2);
    let scan = scan_rect(sheet, start_row, end_row, start_col, end_col);
    if scan.error {
        *sheet.get_mut_cell(row, col) = CellValue::Error;
    } else {
        *sheet.get_mut_cell(row, col) = CellValue::Integer(scan.min);
    }
    CommandStatus::CmdOk
}

/// Writes `MAX(p1:p2)` into the cell (row, col).
pub fn eval_max(sheet: &mut Spreadsheet, row: i16, col: i16, parent1: i32, parent2: i32) -> (st: CommandStatus)
    requires
        range_fn_ok(old(sheet), row, col, parent1, parent2),
    ensures
        st == CommandStatus::CmdOk,
        final(sheet).grid@ == old(sheet).grid@.update(
            old(sheet).key_of(row as int, col as int),
            max_result(old(sheet), parent1, parent2),
        ),
        *final(sheet) == (Spreadsheet { grid: final(sheet).grid, ..*old(sheet) }),
{
    let (start_row, start_col) = sheet.get_row_col(parent1);
    let (end_row, end_col) = sheet.get_row_col(parent2);
    let scan = scan_rect(sheet, start_row, end_row, start_col, end_col);
    if scan.error {
        *sheet.get_mut_cell(row, col) = CellValue::Error;
    } else {
        *sheet.get_mut_cell(row, col) = CellValue::Integer(scan.max);
    }
    CommandStatus::CmdOk
}

/// A rectangle with no rows or no columns holds no values.
pub proof fn lemma_rect_empty(g: Seq<CellValue>, cols: int, sr: int, er: int, sc: int, ec: int)
    requires
        er < sr || ec < sc,
    ensures
        rect_vals(g, cols, sr, er, sc, ec) == Seq::<CellValue>::empty(),
    decreases er + 1 - sr,
{
    if er >= sr {
        lemma_rect_empty(g, cols, sr, er - 1, sc, ec);
        assert(row_vals(g, cols, er, sc, ec) =~= Seq::<CellValue>::empty());
        assert(rect_vals(g, cols, sr, er, sc, ec) =~= Seq::<CellValue>::empty());
    }
}

/// A rectangle holds one value per cell.
pub proof fn lemma_rect_len(g: Seq<CellValue>, cols: int, sr: int, er: int, sc: int, ec: int)
    requires
        er >= sr - 1,
        ec >= sc - 1,
    ensures
        rect_vals(g, cols, sr, er, sc, ec).len() == (er - sr + 1) * (ec - sc + 1),
    decreases er + 1 - sr,
{
    if er >= sr {
        lemma_rect_len(g, cols, sr, er - 1, sc, ec);
        assert(row_vals(g, cols, er, sc, ec).len() == ec - sc + 1);
        assert((er - sr) * (ec - sc + 1) + (ec - sc + 1) == (er - sr + 1) * (ec - sc + 1))
            by (nonlinear_arith);
    } else {
        assert((er - sr + 1) * (ec - sc + 1) == 0) by (nonlinear_arith)
            requires
                er - sr + 1 == 0,
        ;
    }
}

/// The count of a range divides without overflow: a count of -1 only comes with an empty
/// range, whose sum is 0.
pub proof fn lemma_count_minus_one(sheet: &Spreadsheet, p1: i32, p2: i32)
    requires
        range_count(sheet, p1, p2) == -1,
    ensures
        range_vals(sheet, p1, p2) == Seq::<CellValue>::empty(),
{
    let (sr, er, sc, ec) = key_rect(sheet, p1, p2);
    let a = er - sr + 1;
    let b = ec - sc + 1;
    assert(a < 0 || b < 0) by (nonlinear_arith)
        requires
            a * b == -1,
    ;
    lemma_rect_empty(sheet.grid@, sheet.cols as int, sr, er, sc, ec);
}

/// Writes `AVG(p1:p2)` into the cell (row, col): the wrapped sum divided by the count.
pub fn eval_avg(sheet: &mut Spreadsheet, row: i16, col: i16, parent1: i32, parent2: i32) -> (st: CommandStatus)
    requires
        range_fn_ok(old(sheet), row, col, parent1, parent2),
        count_ok(old(sheet), parent1, parent2),
    ensures
        st == CommandStatus::CmdOk,
        final(sheet).grid@ == old(sheet).grid@.update(
            old(sheet).key_of(row as int, col as int),
            avg_result(old(sheet), parent1, parent2),
        ),
        *final(sheet) == (Spreadsheet { grid: final(sheet).grid, ..*old(sheet) }),
{
    let (start_row, start_col) = sheet.get_row_col(parent1);
    let (end_row, end_col) = sheet.get_row_col(parent2);
    let count = ((end_row - start_row + 1) as i32) * ((end_col - start_col + 1) as i32);
    let scan = scan_rect(sheet, start_row, end_row, start_col, end_col);
    if scan.error {
        *sheet.get_mut_cell(row, col) = CellValue::Error;
    } else {
        let v = #[verifier::truncate] (scan.sum as i32);
        proof {
            if count == -1 {
                lemma_count_minus_one(old(sheet), parent1, parent2);
                assert(v == 0);
            }
        }
        let q = div_trunc(v, count);
        *sheet.get_mut_cell(row, col) = CellValue::Integer(q);
    }
    CommandStatus::CmdOk
}

/// Sum of squared distances from `mean` of the integers in the rectangle, row by row.
pub fn sq_dev_rect(sheet: &Spreadsheet, sr: i16, er: i16, sc: i16, ec: i16, mean: i32) -> (s: u128)
    requires
        sheet.dims_ok(),
        rect_in_grid(sheet, sr as int, er as int, sc as int, ec as int),
    ensures
        s == sq_dev(rect_vals(sheet.grid@, sheet.cols as int, sr as int, er as int, sc as int, ec as int), mean as int),
        s <= rect_vals(sheet.grid@, sheet.cols as int, sr as int, er as int, sc as int, ec as int).len() * 0x1_0000_0000_0000_0000,
{
    let ghost g = sheet.grid@;
    let ghost cols = sheet.cols as int;
    let mut acc: u128 = 0;
    let mut n: u64 = 0;
    let mut r: i32 = sr as i32;
    while r <= er as i32
        invariant
            sheet.dims_ok(),
            rect_in_grid(sheet, sr as int, er as int, sc as int, ec as int),
            g == sheet.grid@,
            cols == sheet.cols as int,
            sr <= r <= er + 1 || (r == sr && er < sr),
            n == rect_vals(g, cols, sr as int, r - 1, sc as int, ec as int).len(),
            n <= (r - sr) * 65536,
            acc == sq_dev(rect_vals(g, cols, sr as int, r - 1, sc as int, ec as int), mean as int),
            acc <= n * 0x1_0000_0000_0000_0000,
        decreases er + 1 - r,
    {
        let ghost before = rect_vals(g, cols, sr as int, r - 1, sc as int, ec as int);
        let mut c: i32 = sc as i32;
        while c <= ec as i32
            invariant
                sheet.dims_ok(),
                rect_in_grid(sheet, sr as int, er as int, sc as int, ec as int),
                g == sheet.grid@,
                cols == sheet.cols as int,
                sr <= r <= er,
                sc <= c <= ec + 1 || (c == sc && ec < sc),
                before == rect_vals(g, cols, sr as int, r - 1, sc as int, ec as int),
                n == before.len() + row_vals(g, cols, r as int, sc as int, c - 1).len(),
                n <= (r - sr) * 65536 + (c - sc),
                acc == sq_dev(before + row_vals(g, cols, r as int, sc as int, c - 1), mean as int),
                acc <= n * 0x1_0000_0000_0000_0000,
            decreases ec + 1 - c,
        {
            let ghost prev = before + row_vals(g, cols, r as int, sc as int, c - 1);
            proof {
                assert(sheet.in_grid(r as int, c as int));
                lemma_row_vals_push(g, cols, r as int, sc as int, c as int);
                assert(before + row_vals(g, cols, r as int, sc as int, c as int) =~= prev.push(
                    g[r * cols + c],
                ));
                assert(prev.push(g[r * cols + c]).drop_last() =~= prev);
            }
            let v = *sheet.get_cell(r as i16, c as i16);
            match v {
                CellValue::Integer(x) => {
                    let d: i64 = x as i64 - mean as i64;
                    let dd: i128 = d as i128;
                    proof {
                        assert(0 <= dd * dd <= 0x1_0000_0000_0000_0000) by (nonlinear_arith)
                            requires
                                -0x1_0000_0000 <= dd <= 0x1_0000_0000,
                        ;
                    }
                    let sq = (dd * dd) as u128;
                    acc = acc + sq;
                },
                CellValue::Error => {},
            }
            n = n + 1;
            c = c + 1;
        }
        proof {
            if ec < sc {
                assert(row_vals(g, cols, r as int, sc as int, c - 1) =~= seq![]);
                assert(row_vals(g, cols, r as int, sc as int, ec as int) =~= seq![]);
            }
            assert(rect_vals(g, cols, sr as int, r as int, sc as int, ec as int) == before
                + row_vals(g, cols, r as int, sc as int, ec as int));
        }
        r = r + 1;
    }
    proof {
        if er < sr {
            assert(rect_vals(g, cols, sr as int, r - 1, sc as int, ec as int) =~= seq![]);
        }
    }
    acc
}

/// The square root of `s / n` rounded to the nearest integer, capped at `i32::MAX`.
pub fn rounded_sqrt(s: u128, n: u128) -> (k: i32)
    requires
        0 < n < 0x8000_0000,
        s <= n * 0x1_0000_0000_0000_0000,
    ensures
        is_rounded_sqrt(s as int, n as int, k as int),
{
    let mut lo: u128 = 0;
    let mut hi: u128 = 0x4_0000_0000;
    proof {
        let h = 0x4_0000_0000int;
        assert(n * ((2 * h - 1) * (2 * h - 1)) > 4 * s) by (nonlinear_arith)
            requires
                h == 0x4_0000_0000int,
                n >= 1,
                s <= n * 0x1_0000_0000_0000_0000,
        ;
    }
    while hi - lo > 1
        invariant
            0 < n < 0x8000_0000,
            s <= n * 0x1_0000_0000_0000_0000,
            lo < hi <= 0x4_0000_0000,
            lo == 0 || n * ((2 * lo - 1) * (2 * lo - 1)) <= 4 * s,
            n * ((2 * hi - 1) * (2 * hi - 1)) > 4 * s,
        decreases hi - lo,
    {
        let mid = lo + (hi - lo) / 2;
        let t = 2 * mid - 1;
        proof {
            assert(0 <= t * t <= 0x1000_0000_0000_0000_0000) by (nonlinear_arith)
                requires
                    0 <= t < 0x8_0000_0000,
            ;
            assert(n * (t * t) <= 0x8000_0000 * 0x1000_0000_0000_0000_0000) by (nonlinear_arith)
                requires
                    0 <= t * t <= 0x1000_0000_0000_0000_0000,
                    0 < n < 0x8000_0000,
            ;
        }
        let sq = t * t;
        if n * sq <= 4 * s {
            lo = mid;
        } else {
            hi = mid;
        }
    }
    proof {
        assert(hi == lo + 1);
    }
    if lo > 0x7fff_ffff {
        proof {
            let m = 0x7fff_ffffint;
            assert(n * ((2 * m - 1) * (2 * m - 1)) <= n * ((2 * lo - 1) * (2 * lo - 1)))
                by (nonlinear_arith)
                requires
                    lo > m,
                    m == 0x7fff_ffffint,
                    n > 0,
            ;
        }
        0x7fff_ffff
    } else {
        lo as i32
    }
}

/// Writes `STDEV(p1:p2)` into the cell (row, col): the cell first receives the mean, then
/// the rounded square root of the mean squared deviation of the range as it then reads.
pub fn eval_variance(sheet: &mut Spreadsheet, row: i16, col: i16, parent1: i32, parent2: i32) -> (st: CommandStatus)
    requires
        range_fn_ok(old(sheet), row, col, parent1, parent2),
        count_ok(old(sheet), parent1, parent2),
    ensures
        st == CommandStatus::CmdOk,
        final(sheet).grid@ == old(sheet).grid@.update(
            old(sheet).key_of(row as int, col as int),
            final(sheet).grid@[old(sheet).key_of(row as int, col as int)],
        ),
        stdev_result_is(
            old(sheet),
            old(sheet).key_of(row as int, col as int),
            parent1,
            parent2,
            final(sheet).grid@[old(sheet).key_of(row as int, col as int)],
        ),
        *final(sheet) == (Spreadsheet { grid: final(sheet).grid, ..*old(sheet) }),
{
    let ghost t = old(sheet).key_of(row as int, col as int);
    let (start_row, start_col) = sheet.get_row_col(parent1);
    let (end_row, end_col) = sheet.get_row_col(parent2);
    let count = ((end_row - start_row + 1) as i32) * ((end_col - start_col + 1) as i32);
    let scan = scan_rect(sheet, start_row, end_row, start_col, end_col);
    if scan.error {
        *sheet.get_mut_cell(row, col) = CellValue::Error;
        return CommandStatus::CmdOk;
    }
    let v = #[verifier::truncate] (scan.sum as i32);
    proof {
        if count == -1 {
            lemma_count_minus_one(old(sheet), parent1, parent2);
            assert(v == 0);
        }
    }
    let mean = div_trunc(v, count);
    *sheet.get_mut_cell(row, col) = CellValue::Integer(mean);
    let ghost g1 = sheet.grid@;
    proof {
        let (sr, er, sc, ec) = (start_row as int, end_row as int, start_col as int, end_col as int);
        assert forall|r: int, c: int| sr <= r <= er && sc <= c <= ec implies #[trigger] sheet.in_grid(r, c) by {
            assert(old(sheet).in_grid(r, c));
        }
    }
    let s = sq_dev_rect(sheet, start_row, end_row, start_col, end_col, mean);
    let k: i32 = if count > 0 {
        proof {
            let g = g1;
            let cols = sheet.cols as int;
            let (sr, er, sc, ec) = (start_row as int, end_row as int, start_col as int, end_col as int);
            if er >= sr - 1 && ec >= sc - 1 {
                lemma_rect_len(g, cols, sr, er, sc, ec);
            } else {
                lemma_rect_empty(g, cols, sr, er, sc, ec);
            }
            assert(rect_vals(g, cols, sr, er, sc, ec).len() * 0x1_0000_0000_0000_0000 <= count * 0x1_0000_0000_0000_0000);
        }
        rounded_sqrt(s, count as u128)
    } else {
        proof {
            lemma_rect_empty(g1, sheet.cols as int, start_row as int, end_row as int, start_col as int, end_col as int);
        }
        0
    };
    *sheet.get_mut_cell(row, col) = CellValue::Integer(k);
    proof {
        assert(sheet.grid@ =~= old(sheet).grid@.update(t, CellValue::Integer(k)));
    }
    CommandStatus::CmdOk
}

/// Index of the first `ch` in `s` at or after `i`, or -1.
pub open spec fn find_from(s: Seq<char>, ch: char, i: int) -> int
    decreases s.len() - i,
{
    if i < 0 || i >= s.len() {
        -1
    } else if s[i] == ch {
        i
    } else {
        find_from(s, ch, i + 1)
    }
}

/// The range `s` names in a sheet of `rows` x `cols` cells: two cell references around the
/// first `:`, the first no lower and no further right than the second.
pub open spec fn range_spec(s: Seq<char>, rows: int, cols: int) -> Option<Range> {
    let ci = find_from(s, ':', 0);
    if s.len() < 3 || ci <= 0 || ci + 1 >= s.len() {
        None
    } else {
        match (
            cell_ref_spec(s.subrange(0, ci), rows, cols),
            cell_ref_spec(s.subrange(ci + 1, s.len() as int), rows, cols),
        ) {
            (Some((sr, sc)), Some((er, ec))) => if sr <= er && sc <= ec {
                Some(Range { start_row: sr, start_col: sc, end_row: er, end_col: ec })
            } else {
                None
            },
            _ => None,
        }
    }
}

pub proof fn lemma_find_from(s: Seq<char>, ch: char, i: int, j: int)
    requires
        0 <= i <= j <= s.len(),
        forall|k: int| i <= k < j ==> s[k] != ch,
    ensures
        j < s.len() && s[j] == ch ==> find_from(s, ch, i) == j,
        j == s.len() ==> find_from(s, ch, i) == -1,
    decreases j - i,
{
    if i < j {
        lemma_find_from(s, ch, i + 1, j);
    }
}

/// Index of the first `ch` in `t`, or -1.
pub fn find_char(t: &Vec<char>, ch: char) -> (r: Option<usize>)
    ensures
        match r {
            Some(i) => i == find_from(t@, ch, 0) && i < t@.len(),
            None => find_from(t@, ch, 0) == -1,
        },
{
    let mut i: usize = 0;
    while i < t.len()
        invariant
            0 <= i <= t.len(),
            forall|k: int| 0 <= k < i ==> t@[k] != ch,
        decreases t.len() - i,
    {
        if t[i] == ch {
            proof {
                lemma_find_from(t@, ch, 0, i as int);
            }
            return Some(i);
        }
        i += 1;
    }
    proof {
        lemma_find_from(t@, ch, 0, i as int);
    }
    None
}

/// Parses a range such as `A1:B3` of `spreadsheet`.
pub fn parse_range_chars(spreadsheet: &Spreadsheet, t: &Vec<char>) -> (r: Result<Range, CommandStatus>)
    requires
        spreadsheet.dims_ok(),
    ensures
        match range_spec(t@, spreadsheet.rows as int, spreadsheet.cols as int) {
            Some(rg) => r == Ok::<Range, CommandStatus>(rg),
            None => r == Err::<Range, CommandStatus>(CommandStatus::Unrecognized),
        },
{
    if t.len() < 3 {
        return Err(CommandStatus::Unrecognized);
    }
    let ci = match find_char(t, ':') {
        Some(i) => i,
        None => return Err(CommandStatus::Unrecognized),
    };
    if ci == 0 || ci + 1 >= t.len() {
        return Err(CommandStatus::Unrecognized);
    }
    let (start_row, start_col) = match parse_cell_ref_chars(spreadsheet, t, 0, ci) {
        Ok(p) => p,
        Err(e) => return Err(e),
    };
    let (end_row, end_col) = match parse_cell_ref_chars(spreadsheet, t, ci + 1, t.len()) {
        Ok(p) => p,
        Err(e) => return Err(e),
    };
    if start_row < 0 || start_col < 0 || end_row < 0 || end_col < 0 || start_row > end_row
        || start_col > end_col {
        return Err(CommandStatus::Unrecognized);
    }
    Ok(Range { start_row, start_col, end_row, end_col })
}

/// Parses a range such as `A1:B3` of `spreadsheet`.
pub fn parse_range(spreadsheet: &Spreadsheet, range_str: &str) -> (r: Result<Range, CommandStatus>)
    requires
        spreadsheet.dims_ok(),
    ensures
        match range_spec(range_str@, spreadsheet.rows as int, spreadsheet.cols as int) {
            Some(rg) => r == Ok::<Range, CommandStatus>(rg),
            None => r == Err::<Range, CommandStatus>(CommandStatus::Unrecognized),
        },
{
    let t = chars_of(range_str);
    parse_range_chars(spreadsheet, &t)
}

} // verus!
