//! Cell values and cell references such as `B12`.
use vstd::prelude::*;
use crate::linked_list::Node;
use crate::spreadsheet::{CommandStatus, Spreadsheet};
use crate::text::{all_digits, chars_of, digits_value, is_digit, is_upper, letters_value, lemma_letters_value_bound, all_upper};

verus! {

/// The value held by a cell: an integer, or an error (for example after a division by zero).
#[derive(Debug, Clone, Copy, PartialEq, Eq, Structural)]
pub enum CellValue {
    Integer(i32),
    Error,
}

/// A cell that keeps its own formula, parents and a linked list of its children.
pub struct Cell {
    pub children: Option<Box<Node>>,
    pub parent1: i32,
    pub parent2: i32,
    pub value: CellValue,
    pub formula: i16,
}

impl Cell {
    /// An empty cell: value 0, no formula, no parents and no children.
    pub fn new() -> (c: Self)
        ensures
            c.children is None,
            c.parent1 == -1,
            c.parent2 == -1,
            c.value == CellValue::Integer(0),
            c.formula == -1,
    {
        Cell { children: None, parent1: -1, parent2: -1, value: CellValue::Integer(0), formula: -1 }
    }
}

/// Number of leading upper-case letters of `s`.
pub open spec fn upper_prefix_len(s: Seq<char>) -> nat
    decreases s.len(),
{
    if s.len() > 0 && is_upper(s[0]) {
        1 + upper_prefix_len(s.drop_first())
    } else {
        0
    }
}

/// The zero-based (row, column) that the reference `s` names: one to three upper-case
/// letters followed by one or more digits, within a sheet of `rows` x `cols` cells.
pub open spec fn cell_ref_spec(s: Seq<char>, rows: int, cols: int) -> Option<(i16, i16)> {
    let k = upper_prefix_len(s) as int;
    if 1 <= k <= 3 && k < s.len() && all_digits(s.subrange(k, s.len() as int)) {
        let r = digits_value(s.subrange(k, s.len() as int)) - 1;
        let c = letters_value(s.subrange(0, k)) - 1;
        if 0 <= r < rows && 0 <= c < cols {
            Some((r as i16, c as i16))
        } else {
            None
        }
    } else {
        None
    }
}

pub proof fn lemma_upper_prefix(s: Seq<char>, i: int)
    requires
        0 <= i <= s.len(),
        forall|j: int| 0 <= j < i ==> is_upper(#[trigger] s[j]),
        i == s.len() || !is_upper(s[i]),
    ensures
        upper_prefix_len(s) == i,
    decreases i,
{
    if i > 0 {
        let t = s.drop_first();
        assert forall|j: int| 0 <= j < i - 1 implies is_upper(#[trigger] t[j]) by {
            assert(t[j] == s[j + 1]);
        }
        if i - 1 < t.len() {
            assert(t[i - 1] == s[i]);
        }
        lemma_upper_prefix(t, i - 1);
    } else {
        if s.len() > 0 {
            assert(!is_upper(s[0]));
        }
    }
}

/// Parses `t[lo..hi]` as a cell reference of `sheet`.
pub fn parse_cell_ref_chars(sheet: &Spreadsheet, t: &Vec<char>, lo: usize, hi: usize) -> (r: Result<
    (i16, i16),
    CommandStatus,
>)
    requires
        lo <= hi <= t.len(),
        sheet.dims_ok(),
    ensures
        match cell_ref_spec(t@.subrange(lo as int, hi as int), sheet.rows as int, sheet.cols as int) {
            Some(p) => r == Ok::<(i16, i16), CommandStatus>(p),
            None => r == Err::<(i16, i16), CommandStatus>(CommandStatus::Unrecognized),
        },
{
    parse_ref_within(t, lo, hi, sheet.rows, sheet.cols)
}

/// Parses `t[lo..hi]` as a cell reference within `rows` x `cols` cells.
fn parse_ref_within(t: &Vec<char>, lo: usize, hi: usize, rows: i16, cols: i16) -> (r: Result<
    (i16, i16),
    CommandStatus,
>)
    requires
        lo <= hi <= t.len(),
        1 <= rows <= 999,
        1 <= cols <= 18278,
    ensures
        match cell_ref_spec(t@.subrange(lo as int, hi as int), rows as int, cols as int) {
            Some(p) => r == Ok::<(i16, i16), CommandStatus>(p),
            None => r == Err::<(i16, i16), CommandStatus>(CommandStatus::Unrecognized),
        },
{
    let ghost s = t@.subrange(lo as int, hi as int);
    let mut i = lo;
    let mut col_val: i32 = 0;
    while i < hi && i - lo < 4 && 'A' <= t[i] && t[i] <= 'Z'
        invariant
            lo <= i <= hi <= t.len(),
            i - lo <= 4,
            s == t@.subrange(lo as int, hi as int),
            forall|j: int| 0 <= j < i - lo ==> is_upper(#[trigger] s[j]),
            i - lo <= 3 ==> col_val == letters_value(s.subrange(0, i - lo)),
            0 <= col_val <= 18278,
        decreases hi - i,
    {
        proof {
            let p = s.subrange(0, i - lo);
            let q = s.subrange(0, i - lo + 1);
            assert(q.drop_last() =~= p);
            assert(q.last() == t[i as int]);
            if i - lo + 1 <= 3 {
                assert(all_upper(q)) by {
                    assert forall|j: int| 0 <= j < q.len() implies is_upper(#[trigger] q[j]) by {
                        if j < i - lo {
                            assert(q[j] == s[j]);
                        } else {
                            assert(q[j] == t[i as int]);
                        }
                    }
                }
                lemma_letters_value_bound(q);
            }
        }
        if i - lo < 3 {
            col_val = col_val * 26 + (t[i] as u32 - 64) as i32;
        }
        i += 1;
    }
    let k = i - lo;
    if k > 3 {
        proof {
            lemma_upper_prefix_ge(s, 4);
        }
        return Err(CommandStatus::Unrecognized);
    }
    proof {
        lemma_upper_prefix(s, k as int);
    }
    if k == 0 || i == hi {
        return Err(CommandStatus::Unrecognized);
    }
    // The rest must be digits; its value is capped to stay in range.
    let ghost d = s.subrange(k as int, s.len() as int);
    let mut j = i;
    let mut row_val: i32 = 0;
    while j < hi
        invariant
            lo < i <= j <= hi <= t.len(),
            i < hi,
            1 <= i - lo <= 3,
            upper_prefix_len(s) == i - lo,
            s == t@.subrange(lo as int, hi as int),
            d == s.subrange((i - lo) as int, s.len() as int),
            all_digits(t@.subrange(i as int, j as int)),
            0 <= digits_value(t@.subrange(i as int, j as int)),
            row_val == (if digits_value(t@.subrange(i as int, j as int)) < 10000 {
                digits_value(t@.subrange(i as int, j as int))
            } else {
                10000
            }),
        decreases hi - j,
    {
        let c = t[j];
        if !('0' <= c && c <= '9') {
            proof {
                assert(d[j - i] == c);
                assert(!all_digits(d));
            }
            return Err(CommandStatus::Unrecognized);
        }
        proof {
            let p = t@.subrange(i as int, j as int);
            let q = t@.subrange(i as int, j + 1);
            assert(q.drop_last() =~= p);
            assert(all_digits(q)) by {
                assert forall|m: int| 0 <= m < q.len() implies is_digit(#[trigger] q[m]) by {
                    if m < p.len() {
                        assert(q[m] == p[m]);
                    }
                }
            }
        }
        if row_val < 10000 {
            row_val = row_val * 10 + (c as u32 - 48) as i32;
            if row_val > 10000 {
                row_val = 10000;
            }
        }
        j += 1;
    }
    proof {
        assert(t@.subrange(i as int, hi as int) =~= d);
        assert(s.subrange(0, k as int) =~= t@.subrange(lo as int, i as int));
    }
    let row = row_val - 1;
    let col = col_val - 1;
    if row < 0 || col < 0 || row >= rows as i32 || col >= cols as i32 {
        return Err(CommandStatus::Unrecognized);
    }
    Ok((row as i16, col as i16))
}

pub proof fn lemma_upper_prefix_ge(s: Seq<char>, n: int)
    requires
        0 <= n <= s.len(),
        forall|j: int| 0 <= j < n ==> is_upper(#[trigger] s[j]),
    ensures
        upper_prefix_len(s) >= n,
    decreases n,
{
    if n > 0 {
        let t = s.drop_first();
        assert forall|j: int| 0 <= j < n - 1 implies is_upper(#[trigger] t[j]) by {
            assert(t[j] == s[j + 1]);
        }
        assert(is_upper(s[0]));
        lemma_upper_prefix_ge(t, n - 1);
    }
}

/// Parses a cell reference such as `B12` into zero-based (row, column) coordinates,
/// accepting it only when it names a cell of `sheet`.
pub fn parse_cell_reference(sheet: &Spreadsheet, cell_ref: &str) -> (r: Result<
    (i16, i16),
    CommandStatus,
>)
    requires
        sheet.dims_ok(),
    ensures
        match cell_ref_spec(cell_ref@, sheet.rows as int, sheet.cols as int) {
            Some(p) => r == Ok::<(i16, i16), CommandStatus>(p),
            None => r == Err::<(i16, i16), CommandStatus>(CommandStatus::Unrecognized),
        },
{
    let t = chars_of(cell_ref);
    proof {
        assert(t@.subrange(0, t@.len() as int) =~= cell_ref@);
    }
    parse_cell_ref_chars(sheet, &t, 0, t.len())
}

/// Parses a cell reference such as `B12` into zero-based (row, column) coordinates,
/// accepting any cell within the largest sheet (999 rows, 18278 columns), whatever the size
/// of `_sheet`.
pub fn parse_cell_reference_in_limits(_sheet: &Spreadsheet, cell_ref: &str) -> (r: Result<(i16, i16), CommandStatus>)
    ensures
        match cell_ref_spec(cell_ref@, 999, 18278) {
            Some(p) => r == Ok::<(i16, i16), CommandStatus>(p),
            None => r == Err::<(i16, i16), CommandStatus>(CommandStatus::Unrecognized),
        },
{
    let t = chars_of(cell_ref);
    proof {
        assert(t@.subrange(0, t@.len() as int) =~= cell_ref@);
    }
    parse_ref_within(&t, 0, t.len(), 999, 18278)
}

} // verus!
