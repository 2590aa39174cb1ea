//! Writing cells and formulas back as text.
use vstd::prelude::*;
use crate::formula::Range;
use crate::graph::{formula_kind, rem10};
use crate::spreadsheet::{HighlightType, Spreadsheet, column_name_spec, tdiv};
use crate::graph::range_edge;
use crate::text::{int_text, push_char, push_int, push_str};

verus! {

/// The range is the single cell (row, col).
pub open spec fn is_single(r: Range, row: int, col: int) -> bool {
    r.start_row == row && r.start_col == col && r.end_row == row && r.end_col == col
}

/// Index of the first binding at or after `i` whose range is the single cell (row, col),
/// or -1.
pub open spec fn first_single(v: Seq<(Seq<char>, Range)>, row: int, col: int, i: int) -> int
    decreases v.len() - i,
{
    if i < 0 || i >= v.len() {
        -1
    } else if is_single(v[i].1, row, col) {
        i
    } else {
        first_single(v, row, col, i + 1)
    }
}

/// The name of the cell (row, col): the first name bound to exactly that cell, else its
/// column letters and its row number from 1.
pub open spec fn cell_name_spec(sheet: &Spreadsheet, row: int, col: int) -> Seq<char> {
    let v = sheet.named_ranges.view();
    let i = first_single(v, row, col, 0);
    if i >= 0 {
        v[i].0
    } else {
        column_name_spec(col) + int_text(row + 1)
    }
}

pub proof fn lemma_first_single(v: Seq<(Seq<char>, Range)>, row: int, col: int, i: int, j: int)
    requires
        0 <= i <= j <= v.len(),
        forall|k: int| i <= k < j ==> !is_single(#[trigger] v[k].1, row, col),
    ensures
        j < v.len() && is_single(v[j].1, row, col) ==> first_single(v, row, col, i) == j,
        j == v.len() ==> first_single(v, row, col, i) == -1,
    decreases j - i,
{
    if i < j {
        lemma_first_single(v, row, col, i + 1, j);
    }
}

impl Spreadsheet {
    /// The name of the cell (row, col): the first name bound to exactly that cell, else
    /// its column letters and its row number counted from 1 (as `B3`).
    pub fn get_cell_name(&self, row: i16, col: i16) -> (s: String)
        requires
            col < i16::MAX,
        ensures
            s@ == cell_name_spec(self, row as int, col as int),
    {
        let n = self.named_ranges.len();
        let ghost v = self.named_ranges.view();
        let mut i: usize = 0;
        while i < n
            invariant
                n == v.len(),
                v == self.named_ranges.view(),
                0 <= i <= n,
                forall|k: int| 0 <= k < i ==> !is_single(#[trigger] v[k].1, row as int, col as int),
            decreases n - i,
        {
            let (name, range) = self.named_ranges.entry(i);
            if range.start_row == row && range.start_col == col && range.end_row == row
                && range.end_col == col {
                proof {
                    lemma_first_single(v, row as int, col as int, 0, i as int);
                }
                return name.clone();
            }
            i += 1;
        }
        proof {
            lemma_first_single(v, row as int, col as int, 0, i as int);
        }
        let mut s = self.get_column_name(col);
        push_int(&mut s, row as i64 + 1);
        s
    }
}

/// The operator a code's leading digits name in a formula over two cells or a number and
/// a cell: 1 `+`, 2 `-`, 3 `/`, anything else `*`.
pub open spec fn op_char(msb: int) -> char {
    if msb == 1 {
        '+'
    } else if msb == 2 {
        '-'
    } else if msb == 3 {
        '/'
    } else {
        '*'
    }
}

/// The name of the cell with key `k`.
pub open spec fn key_name(sheet: &Spreadsheet, k: i32) -> Seq<char> {
    cell_name_spec(sheet, sheet.row_of(k as int) as int, sheet.col_of(k as int) as int)
}

/// The text of a range function over `p1:p2`.
pub open spec fn range_text(sheet: &Spreadsheet, f: Seq<char>, p1: i32, p2: i32) -> Seq<char> {
    f + seq!['('] + key_name(sheet, p1) + seq![':'] + key_name(sheet, p2) + seq![')']
}

/// The formula of the cell (row, col) as text, such as `A1+B1`, `B2/10`, `SLEEP(A1)` or
/// `SUM(A1:B2)`; `No formula` for a cell without one.
pub open spec fn formula_text(sheet: &Spreadsheet, row: int, col: int) -> Seq<char> {
    let m = sheet.meta_of(sheet.key_of(row, col) as i32);
    let rem = formula_kind(m.formula);
    let msb = tdiv(m.formula as int, 10);
    if m.formula == -1 {
        "No formula"@
    } else if rem == 0 {
        key_name(sheet, m.parent1) + seq![op_char(msb)] + key_name(sheet, m.parent2)
    } else if rem == 2 {
        let left = key_name(sheet, m.parent1);
        let right = int_text(m.parent2 as int);
        if msb == 1 {
            left + seq!['+'] + right
        } else if msb == 2 {
            left + seq!['-'] + right
        } else if msb == 4 {
            left + seq!['*'] + right
        } else if msb == 3 {
            left + seq!['/'] + right
        } else if msb == 8 {
            left
        } else {
            "SLEEP("@ + left + seq![')']
        }
    } else if rem == 3 {
        int_text(m.parent1 as int) + seq![op_char(msb)] + key_name(sheet, m.parent2)
    } else if rem == 5 {
        range_text(sheet, "SUM"@, m.parent1, m.parent2)
    } else if rem == 6 {
        range_text(sheet, "AVG"@, m.parent1, m.parent2)
    } else if rem == 7 {
        range_text(sheet, "MIN"@, m.parent1, m.parent2)
    } else if rem == 8 {
        range_text(sheet, "MAX"@, m.parent1, m.parent2)
    } else if rem == 9 {
        range_text(sheet, "STDEV"@, m.parent1, m.parent2)
    } else {
        "Unknown formula"@
    }
}

/// The name of the cell with key `k`, as [`key_name`] says.
fn name_of_key(sheet: &Spreadsheet, k: i32) -> (s: String)
    requires
        sheet.dims_ok(),
    ensures
        s@ == key_name(sheet, k),
{
    let (r, c) = sheet.get_row_col(k);
    proof {
        crate::spreadsheet::lemma_tdiv_bounds(k as int, sheet.cols as int);
    }
    sheet.get_cell_name(r, c)
}

/// Appends the text of a range function over `p1:p2`.
fn push_range_text(s: &mut String, sheet: &Spreadsheet, f: &str, p1: i32, p2: i32)
    requires
        sheet.dims_ok(),
    ensures
        final(s)@ == old(s)@ + range_text(sheet, f@, p1, p2),
{
    push_str(s, f);
    push_char(s, '(');
    let a = name_of_key(sheet, p1);
    push_str(s, a.as_str());
    push_char(s, ':');
    let b = name_of_key(sheet, p2);
    push_str(s, b.as_str());
    push_char(s, ')');
    proof {
        assert(final(s)@ =~= old(s)@ + range_text(sheet, f@, p1, p2));
    }
}

/// The formula of the cell (row, col) as text, as [`formula_text`] says.
pub fn get_formula_string(sheet: &Spreadsheet, row: i16, col: i16) -> (s: String)
    requires
        sheet.dims_ok(),
    ensures
        s@ == formula_text(sheet, row as int, col as int),
{
    let meta = sheet.get_cell_meta_ref(row, col);
    proof {
        crate::spreadsheet::lemma_key_bounds(row as int, col as int, sheet.cols as int);
        crate::spreadsheet::lemma_tdiv_bounds(meta.formula as int, 10);
        reveal_strlit("No formula");
        reveal_strlit("Unknown formula");
        reveal_strlit("SLEEP(");
    }
    let mut s = String::new();
    if meta.formula == -1 {
        push_str(&mut s, "No formula");
        return s;
    }
    let rem = rem10(meta.formula);
    let msb = meta.formula / 10;
    if rem == 0 {
        let a = name_of_key(sheet, meta.parent1);
        push_str(&mut s, a.as_str());
        let op = if msb == 1 {
            '+'
        } else if msb == 2 {
            '-'
        } else if msb == 3 {
            '/'
        } else {
            '*'
        };
        push_char(&mut s, op);
        let b = name_of_key(sheet, meta.parent2);
        push_str(&mut s, b.as_str());
        proof {
            assert(s@ =~= formula_text(sheet, row as int, col as int));
        }
    } else if rem == 2 {
        let a = name_of_key(sheet, meta.parent1);
        if msb == 8 {
            push_str(&mut s, a.as_str());
        } else if msb == 1 || msb == 2 || msb == 3 || msb == 4 {
            push_str(&mut s, a.as_str());
            let op = if msb == 1 {
                '+'
            } else if msb == 2 {
                '-'
            } else if msb == 4 {
                '*'
            } else {
                '/'
            };
            push_char(&mut s, op);
            push_int(&mut s, meta.parent2 as i64);
        } else {
            push_str(&mut s, "SLEEP(");
            push_str(&mut s, a.as_str());
            push_char(&mut s, ')');
        }
        proof {
            assert(s@ =~= formula_text(sheet, row as int, col as int));
        }
    } else if rem == 3 {
        push_int(&mut s, meta.parent1 as i64);
        let op = if msb == 1 {
            '+'
        } else if msb == 2 {
            '-'
        } else if msb == 3 {
            '/'
        } else {
            '*'
        };
        push_char(&mut s, op);
        let b = name_of_key(sheet, meta.parent2);
        push_str(&mut s, b.as_str());
        proof {
            assert(s@ =~= formula_text(sheet, row as int, col as int));
        }
    } else if rem == 5 {
        push_range_text(&mut s, sheet, "SUM", meta.parent1, meta.parent2);
        proof {
            assert(s@ =~= formula_text(sheet, row as int, col as int));
        }
    } else if rem == 6 {
        push_range_text(&mut s, sheet, "AVG", meta.parent1, meta.parent2);
        proof {
            assert(s@ =~= formula_text(sheet, row as int, col as int));
        }
    } else if rem == 7 {
        push_range_text(&mut s, sheet, "MIN", meta.parent1, meta.parent2);
        proof {
            assert(s@ =~= formula_text(sheet, row as int, col as int));
        }
    } else if rem == 8 {
        push_range_text(&mut s, sheet, "MAX", meta.parent1, meta.parent2);
        proof {
            assert(s@ =~= formula_text(sheet, row as int, col as int));
        }
    } else if rem == 9 {
        push_range_text(&mut s, sheet, "STDEV", meta.parent1, meta.parent2);
        proof {
            assert(s@ =~= formula_text(sheet, row as int, col as int));
        }
    } else {
        push_str(&mut s, "Unknown formula");
    }
    s
}


/// Whether the cell with key `k` is shown highlighted, and how: as a cell the highlighted
/// cell reads (`Parent`, when parents are shown) or as a cell that reads it (`Child`, when
/// children are shown).
pub open spec fn highlight_spec(sheet: &Spreadsheet, k: i32) -> (bool, HighlightType) {
    let hc = sheet.highlight_cell;
    let ht = sheet.highlight_type;
    let m = sheet.cell_meta@[hc];
    let rem = formula_kind(m.formula);
    let is_parent = sheet.cell_meta@.contains_key(hc) && (ht == HighlightType::Parent || ht
        == HighlightType::Both) && if rem == 0 {
        m.parent1 == k || m.parent2 == k
    } else if rem == 2 {
        m.parent1 == k
    } else if rem == 3 {
        m.parent2 == k
    } else {
        sheet.key_in_range(k as int, m.parent1 as int, m.parent2 as int)
    };
    let is_child = (ht == HighlightType::Child || ht == HighlightType::Both) && (
    sheet.children_of(hc).contains(k) || range_edge(sheet, hc, k));
    if hc == -1 || ht == HighlightType::NoHighlight {
        (false, HighlightType::NoHighlight)
    } else if is_parent {
        (true, HighlightType::Parent)
    } else if is_child {
        (true, HighlightType::Child)
    } else {
        (false, HighlightType::NoHighlight)
    }
}

impl Spreadsheet {
    /// Whether the cell with key `cell_key` is highlighted, and as what.
    pub fn is_highlighted(&self, cell_key: i32) -> (r: (bool, HighlightType))
        requires
            self.dims_ok(),
        ensures
            r == highlight_spec(self, cell_key),
    {
        let hc = self.highlight_cell;
        let ht = self.highlight_type;
        if hc == -1 || ht == HighlightType::NoHighlight {
            return (false, HighlightType::NoHighlight);
        }
        if let Some(meta) = self.cell_meta.get(&hc) {
            if ht == HighlightType::Parent || ht == HighlightType::Both {
                let rem = rem10(meta.formula);
                let hit = if rem == 0 {
                    meta.parent1 == cell_key || meta.parent2 == cell_key
                } else if rem == 2 {
                    meta.parent1 == cell_key
                } else if rem == 3 {
                    meta.parent2 == cell_key
                } else {
                    self.is_cell_in_range(cell_key, meta.parent1, meta.parent2)
                };
                if hit {
                    return (true, HighlightType::Parent);
                }
            }
        }
        if ht == HighlightType::Child || ht == HighlightType::Both {
            let mut found = match self.children.get(&hc) {
                Some(children) => children.contains(&cell_key),
                None => false,
            };
            let mut i: usize = 0;
            while i < self.range_children.len()
                invariant
                    self.dims_ok(),
                    0 <= i <= self.range_children@.len(),
                    found == (self.children_of(hc).contains(cell_key) || exists|j: int|
                        0 <= j < i && (#[trigger] self.range_children@[j]).child_key == cell_key
                            && self.key_in_range(hc as int, self.range_children@[j].start_key as int, self.range_children@[j].end_key as int)),
                decreases self.range_children@.len() - i,
            {
                let rc = self.range_children[i];
                if rc.child_key == cell_key && self.is_cell_in_range(hc, rc.start_key, rc.end_key) {
                    found = true;
                }
                proof {
                    if found && !self.children_of(hc).contains(cell_key) {
                        if rc.child_key == cell_key && self.key_in_range(hc as int, rc.start_key as int, rc.end_key as int) {
                            assert(self.range_children@[i as int] == rc);
                        }
                    }
                }
                i += 1;
            }
            if found {
                return (true, HighlightType::Child);
            }
        }
        (false, HighlightType::NoHighlight)
    }
}

} // verus!
