//! The spreadsheet grid, its dependency bookkeeping and its viewport.
use std::collections::HashMap;
use std::collections::HashSet;
use vstd::prelude::*;
use crate::cell::{CellValue, parse_cell_reference, cell_ref_spec};
use crate::formula::Range;
use crate::named::NamedRanges;
use crate::text::{chars_of, col_letters, letters_value, push_char};

verus! {

broadcast use vstd::std_specs::hash::group_hash_axioms;

/// Largest number of rows a sheet may have.
pub const MAX_ROWS: i16 = 999;

/// Largest number of columns a sheet may have.
pub const MAX_COLS: i16 = 18278;

/// Which relationship of the highlighted cell is shown.
#[derive(Debug, Clone, Copy, PartialEq, Eq, Structural)]
pub enum HighlightType {
    Parent,
    Child,
    Both,
    NoHighlight,
}

/// A cell whose formula reads a rectangular range, from `start_key` to `end_key`.
#[derive(Debug, Clone, Copy, PartialEq, Eq, Hash, Structural)]
pub struct RangeChild {
    pub start_key: i32,
    pub end_key: i32,
    pub child_key: i32,
}

/// Outcome of a command.
#[derive(Debug, Clone, Copy, PartialEq, Eq, Structural)]
pub enum CommandStatus {
    CmdOk,
    Unrecognized,
    CircularRef,
    InvalidCell,
    LockedCell,
    NotLockedCell,
}

/// The formula of a cell: a formula code and its two operands.
///
/// The code's last digit says which operands are cells: 0 both, 2 the first, 3 the second,
/// 5 to 9 a range function (SUM, AVG, MIN, MAX, STDEV) over the range `parent1:parent2`.
/// The leading digits give the operator (1 `+`, 2 `-`, 3 `/`, 4 `*`), 8 for a plain
/// reference and 10 for SLEEP. An operand that is not a cell holds its literal value.
#[derive(Debug, Clone, Copy, PartialEq, Eq, Structural)]
pub struct CellMeta {
    pub formula: i16,
    pub parent1: i32,
    pub parent2: i32,
}

/// Metadata of a cell without a formula.
pub open spec fn empty_meta() -> CellMeta {
    CellMeta { formula: -1i16, parent1: -1i32, parent2: -1i32 }
}

impl CellMeta {
    /// Metadata of a cell without a formula.
    pub fn new() -> (m: Self)
        ensures
            m == empty_meta(),
    {
        CellMeta { formula: -1, parent1: -1, parent2: -1 }
    }
}

/// Quotient of integer division rounding toward zero, as Rust's `/` on integers.
pub open spec fn tdiv(k: int, c: int) -> int {
    let q = (if k < 0 { -k } else { k }) / (if c < 0 { -c } else { c });
    if (k < 0) != (c < 0) {
        -q
    } else {
        q
    }
}

/// Integer division rounding toward zero.
pub fn div_trunc(a: i32, b: i32) -> (q: i32)
    requires
        b != 0,
        !(a == i32::MIN && b == -1),
    ensures
        q == tdiv(a as int, b as int),
{
    let na: i64 = if a < 0 { -(a as i64) } else { a as i64 };
    let nb: i64 = if b < 0 { -(b as i64) } else { b as i64 };
    let m = na / nb;
    proof {
        assert(0 <= m <= na) by (nonlinear_arith)
            requires
                na >= 0,
                nb >= 1,
                m == na / nb,
        ;
        if nb == 1 {
            assert(m == na) by (nonlinear_arith)
                requires
                    nb == 1,
                    m == na / nb,
            ;
        } else {
            assert(m <= na / 2) by (nonlinear_arith)
                requires
                    na >= 0,
                    nb >= 2,
                    m == na / nb,
            ;
        }
    }
    if (a < 0) != (b < 0) {
        (-m) as i32
    } else {
        m as i32
    }
}

/// Remainder that goes with [`tdiv`], as Rust's `%` on integers.
pub open spec fn tmod(k: int, c: int) -> int {
    k - c * tdiv(k, c)
}

/// A sheet of integer cells with formulas.
pub struct Spreadsheet {
    pub grid: Vec<CellValue>,
    pub children: HashMap<i32, HashSet<i32>>,
    pub range_children: Vec<RangeChild>,
    pub cell_meta: HashMap<i32, CellMeta>,
    pub rows: i16,
    pub cols: i16,
    pub viewport_row: i16,
    pub viewport_col: i16,
    pub output_enabled: bool,
    pub locked_ranges: Vec<Range>,
    pub named_ranges: NamedRanges,
    pub cell_history: HashMap<i32, Vec<CellValue>>,
    pub last_edited: Option<(i16, i16)>,
    pub highlight_cell: i32,
    pub highlight_type: HighlightType,
}

impl Spreadsheet {
    /// The dimensions are within the limits.
    pub open spec fn dims_ok(&self) -> bool {
        &&& 1 <= self.rows <= MAX_ROWS
        &&& 1 <= self.cols <= MAX_COLS
    }

    /// The sheet is well formed: sane dimensions, one grid entry per cell, and a viewport
    /// and last-edited cell that lie in the sheet.
    pub open spec fn wf(&self) -> bool {
        &&& self.dims_ok()
        &&& self.grid@.len() == self.rows * self.cols
        &&& -10 <= self.viewport_row < self.rows
        &&& -10 <= self.viewport_col < self.cols
        &&& (self.last_edited matches Some((r, c)) ==> self.valid_cell(r as int, c as int))
        &&& self.named_ranges.wf()
    }

    pub open spec fn valid_cell(&self, r: int, c: int) -> bool {
        0 <= r < self.rows && 0 <= c < self.cols
    }

    pub open spec fn key_of(&self, r: int, c: int) -> int {
        r * self.cols + c
    }

    pub open spec fn row_of(&self, k: int) -> i16 {
        tdiv(k, self.cols as int) as i16
    }

    pub open spec fn col_of(&self, k: int) -> i16 {
        tmod(k, self.cols as int) as i16
    }

    /// `(r, c)` indexes the grid without going out of bounds.
    pub open spec fn in_grid(&self, r: int, c: int) -> bool {
        0 <= r && 0 <= c && self.key_of(r, c) < self.grid@.len()
    }

    /// The cells that depend directly (not through a range) on the cell with key `k`.
    pub open spec fn children_of(&self, k: i32) -> Set<i32> {
        if self.children@.contains_key(k) {
            self.children@[k]@
        } else {
            Set::empty()
        }
    }

    /// Every recorded set of children is finite.
    pub open spec fn children_finite(&self) -> bool {
        forall|k: i32| #[trigger] self.children@.contains_key(k) ==> self.children@[k]@.finite()
    }

    /// Whether `k` lies in the rectangle spanned by the keys `s` and `e`.
    pub open spec fn key_in_range(&self, k: int, s: int, e: int) -> bool {
        &&& self.row_of(k) >= self.row_of(s)
        &&& self.row_of(k) <= self.row_of(e)
        &&& self.col_of(k) >= self.col_of(s)
        &&& self.col_of(k) <= self.col_of(e)
    }

    /// Metadata of the cell with key `k`, as stored or the empty default.
    pub open spec fn meta_of(&self, k: i32) -> CellMeta {
        if self.cell_meta@.contains_key(k) {
            self.cell_meta@[k]
        } else {
            empty_meta()
        }
    }

    /// Whether some locked range covers the cell.
    pub open spec fn locked(&self, r: int, c: int) -> bool {
        exists|i: int|
            0 <= i < self.locked_ranges@.len() && #[trigger] self.locked_ranges@[i].contains(r, c)
    }

    /// Creates a sheet of `rows` x `cols` zero cells, or `None` when a dimension is out of
    /// range (rows from 1 to 999, columns from 1 to 18278).
    pub fn create(rows: i16, cols: i16) -> (r: Option<Spreadsheet>)
        ensures
            (1 <= rows <= MAX_ROWS && 1 <= cols <= MAX_COLS) <==> r is Some,
            r matches Some(s) ==> {
                &&& s.wf()
                &&& s.rows == rows
                &&& s.cols == cols
                &&& forall|i: int| 0 <= i < s.grid@.len() ==> s.grid@[i] == CellValue::Integer(0)
                &&& s.children@ == Map::<i32, HashSet<i32>>::empty()
                &&& s.range_children@ == Seq::<RangeChild>::empty()
                &&& s.cell_meta@ == Map::<i32, CellMeta>::empty()
                &&& s.viewport_row == 0
                &&& s.viewport_col == 0
                &&& s.output_enabled
                &&& s.locked_ranges@ == Seq::<Range>::empty()
                &&& s.named_ranges.view() == Seq::<(Seq<char>, Range)>::empty()
                &&& s.cell_history@ == Map::<i32, Vec<CellValue>>::empty()
                &&& s.last_edited is None
                &&& s.highlight_cell == -1
                &&& s.highlight_type == HighlightType::NoHighlight
            },
            r matches Some(s) ==> crate::evaluator::sheet_ok(&s),
    {
        if rows < 1 || rows > MAX_ROWS || cols < 1 || cols > MAX_COLS {
            return None;
        }
        proof {
            assert(0 <= rows * cols <= 999 * 18278) by (nonlinear_arith)
                requires
                    1 <= rows <= 999,
                    1 <= cols <= 18278,
            ;
        }
        let total = rows as usize * cols as usize;
        let mut grid: Vec<CellValue> = Vec::with_capacity(total);
        let mut i: usize = 0;
        while i < total
            invariant
                0 <= i <= total,
                grid@.len() == i,
                forall|j: int| 0 <= j < i ==> grid@[j] == CellValue::Integer(0),
            decreases total - i,
        {
            grid.push(CellValue::Integer(0));
            i += 1;
        }
        let sheet = Spreadsheet {
                grid,
                children: HashMap::new(),
                range_children: Vec::new(),
                cell_meta: HashMap::new(),
                rows,
                cols,
                viewport_row: 0,
                viewport_col: 0,
                output_enabled: true,
                locked_ranges: Vec::new(),
                named_ranges: NamedRanges::new(),
                cell_history: HashMap::new(),
                last_edited: None,
                highlight_cell: -1,
                highlight_type: HighlightType::NoHighlight,
            };
        proof {
            assert forall|k: i32| !#[trigger] sheet.children@.contains_key(k) by {}
            assert forall|p: i32, c: i32| !#[trigger] crate::graph::edge(&sheet, p, c) by {
                assert(sheet.children_of(p) =~= Set::<i32>::empty());
            }
            assert forall|n: Seq<char>| #[trigger] sheet.named_ranges.lookup(n) is None by {}
        }
        Some(sheet)
    }

    /// The key of a cell: `row * cols + col`.
    pub fn get_key(&self, row: i16, col: i16) -> (k: i32)
        requires
            self.dims_ok(),
        ensures
            k == self.key_of(row as int, col as int),
    {
        proof {
            lemma_key_bounds(row as int, col as int, self.cols as int);
        }
        row as i32 * self.cols as i32 + col as i32
    }

    /// The (row, column) of a key: quotient and remainder of the division by `cols`.
    pub fn get_row_col(&self, key: i32) -> (rc: (i16, i16))
        requires
            self.dims_ok(),
        ensures
            rc == (self.row_of(key as int), self.col_of(key as int)),
    {
        let c = self.cols as i32;
        let q = key / c;
        proof {
            assert(q == tdiv(key as int, c as int));
            lemma_tdiv_bounds(key as int, c as int);
        }
        let m = key - c * q;
        let row = q as i16;
        let col = m as i16;
        (row, col)
    }

    /// The grid index of a cell.
    pub fn get_index(&self, row: i16, col: i16) -> (i: usize)
        requires
            self.in_grid(row as int, col as int),
            self.dims_ok(),
        ensures
            i == self.key_of(row as int, col as int),
    {
        proof {
            lemma_key_bounds(row as int, col as int, self.cols as int);
        }
        (row as usize) * (self.cols as usize) + (col as usize)
    }

    /// Metadata of a cell, stored as empty metadata first when the cell has none.
    pub fn get_cell_meta(&mut self, row: i16, col: i16) -> (m: &mut CellMeta)
        requires
            old(self).dims_ok(),
        ensures
            *m == old(self).meta_of(old(self).key_of(row as int, col as int) as i32),
            final(self).cell_meta@ == old(self).cell_meta@.insert(
                old(self).key_of(row as int, col as int) as i32,
                *final(m),
            ),
            *final(self) == (Spreadsheet { cell_meta: final(self).cell_meta, ..*old(self) }),
    {
        let key = self.get_key(row, col);
        self.cell_meta.entry(key).or_insert(CellMeta::new())
    }

    /// Metadata of a cell, or empty metadata when it has none.
    pub fn get_cell_meta_ref(&self, row: i16, col: i16) -> (m: CellMeta)
        requires
            self.dims_ok(),
        ensures
            m == self.meta_of(self.key_of(row as int, col as int) as i32),
    {
        let key = self.get_key(row, col);
        match self.cell_meta.get(&key) {
            Some(m) => *m,
            None => CellMeta::new(),
        }
    }

    /// Reads the number a column name denotes, minus one: `A` is 0, `Z` 25, `AA` 26.
    pub fn column_name_to_index(&self, name: &str) -> (i: i16)
        requires
            forall|j: int| 0 <= j < name@.len() ==> 'A' <= #[trigger] name@[j] <= '\u{7f}',
            letters_value(name@) <= i16::MAX,
        ensures
            i == letters_value(name@) - 1,
    {
        let t = chars_of(name);
        let mut index: i32 = 0;
        let mut j: usize = 0;
        while j < t.len()
            invariant
                t@ == name@,
                0 <= j <= t.len(),
                forall|m: int| 0 <= m < name@.len() ==> 'A' <= #[trigger] name@[m] <= '\u{7f}',
                letters_value(name@) <= i16::MAX,
                index == letters_value(t@.subrange(0, j as int)),
            decreases t.len() - j,
        {
            proof {
                let p = t@.subrange(0, j as int);
                let q = t@.subrange(0, j + 1);
                assert(q.drop_last() =~= p);
                lemma_letters_value_prefix(name@, j + 1);
                lemma_letters_value_ge0(p);
            }
            index = index * 26 + (t[j] as u32 - 64) as i32;
            j += 1;
        }
        proof {
            assert(t@.subrange(0, t@.len() as int) =~= name@);
            lemma_letters_value_ge0(name@);
        }
        (index - 1) as i16
    }

    /// The cell at (row, col).
    pub fn get_cell(&self, row: i16, col: i16) -> (v: &CellValue)
        requires
            self.dims_ok(),
            self.in_grid(row as int, col as int),
        ensures
            *v == self.grid@[self.key_of(row as int, col as int)],
    {
        let index = self.get_index(row, col);
        &self.grid[index]
    }

    /// The cell with the given key.
    pub fn get_key_cell(&self, cell_key: i32) -> (v: &CellValue)
        requires
            0 <= cell_key < self.grid@.len(),
        ensures
            *v == self.grid@[cell_key as int],
    {
        &self.grid[cell_key as usize]
    }

    /// Mutable access to the cell at (row, col).
    pub fn get_mut_cell(&mut self, row: i16, col: i16) -> (v: &mut CellValue)
        requires
            old(self).dims_ok(),
            old(self).in_grid(row as int, col as int),
        ensures
            *v == old(self).grid@[old(self).key_of(row as int, col as int)],
            final(self).grid@ == old(self).grid@.update(
                old(self).key_of(row as int, col as int),
                *final(v),
            ),
            *final(self) == (Spreadsheet { grid: final(self).grid, ..*old(self) }),
    {
        let index = self.get_index(row, col);
        &mut self.grid[index]
    }

    /// Records that `child_key` reads the range from `start_key` to `end_key`.
    pub fn add_range_child(&mut self, start_key: i32, end_key: i32, child_key: i32)
        ensures
            final(self).range_children@ == old(self).range_children@.push(
                RangeChild { start_key, end_key, child_key },
            ),
            *final(self) == (Spreadsheet {
                range_children: final(self).range_children,
                ..*old(self)
            }),
    {
        self.range_children.push(RangeChild { start_key, end_key, child_key });
    }

    /// Forgets every range that `child_key` reads.
    pub fn remove_range_child(&mut self, child_key: i32)
        ensures
            final(self).range_children@ == old(self).range_children@.filter(
                |rc: RangeChild| rc.child_key != child_key,
            ),
            *final(self) == (Spreadsheet {
                range_children: final(self).range_children,
                ..*old(self)
            }),
    {
        let mut kept: Vec<RangeChild> = Vec::new();
        let mut i: usize = 0;
        let ghost f = |rc: RangeChild| rc.child_key != child_key;
        while i < self.range_children.len()
            invariant
                0 <= i <= self.range_children@.len(),
                kept@ == self.range_children@.subrange(0, i as int).filter(f),
                f == (|rc: RangeChild| rc.child_key != child_key),
            decreases self.range_children@.len() - i,
        {
            let rc = self.range_children[i];
            proof {
                let s = self.range_children@;
                assert(s.subrange(0, i + 1).drop_last() =~= s.subrange(0, i as int));
                reveal_with_fuel(Seq::<_>::filter, 1);
            }
            if rc.child_key != child_key {
                kept.push(rc);
            }
            i += 1;
        }
        proof {
            assert(self.range_children@.subrange(0, i as int) =~= self.range_children@);
        }
        self.range_children = kept;
    }

    /// Whether the cell with key `cell_key` lies in the rectangle from `start_key` to `end_key`.
    pub fn is_cell_in_range(&self, cell_key: i32, start_key: i32, end_key: i32) -> (b: bool)
        requires
            self.dims_ok(),
        ensures
            b == self.key_in_range(cell_key as int, start_key as int, end_key as int),
    {
        let (cell_row, cell_col) = self.get_row_col(cell_key);
        let (start_row, start_col) = self.get_row_col(start_key);
        let (end_row, end_col) = self.get_row_col(end_key);
        cell_row >= start_row && cell_row <= end_row && cell_col >= start_col && cell_col
            <= end_col
    }

    /// Records that `child_key` depends directly on `parent_key`.
    pub fn add_child(&mut self, parent_key: &i32, child_key: &i32)
        requires
            old(self).children_finite(),
        ensures
            final(self).children_finite(),
            final(self).children@.contains_key(*parent_key),
            forall|k: i32|
                k != *parent_key ==> (#[trigger] final(self).children@.contains_key(k)
                    == old(self).children@.contains_key(k) && final(self).children_of(k) == old(
                    self,
                ).children_of(k)),
            final(self).children_of(*parent_key) == old(self).children_of(*parent_key).insert(
                *child_key,
            ),
            *final(self) == (Spreadsheet { children: final(self).children, ..*old(self) }),
    {
        let s = self.children.entry(*parent_key).or_insert(HashSet::new());
        s.insert(*child_key);
        proof {
            assert forall|k: i32| k != *parent_key implies (#[trigger] self.children@.contains_key(k)
                == old(self).children@.contains_key(k) && self.children_of(k) == old(
                self,
            ).children_of(k)) by {
                assert(self.children@.dom().contains(k) == old(self).children@.dom().contains(k));
            }
        }
    }

    /// Forgets that `child_key` depends directly on `parent_key`; a parent left without
    /// children loses its entry.
    pub fn remove_child(&mut self, parent_key: i32, child_key: i32)
        requires
            old(self).children_finite(),
        ensures
            final(self).children_finite(),
            forall|k: i32|
                k != parent_key ==> (#[trigger] final(self).children@.contains_key(k)
                    == old(self).children@.contains_key(k) && final(self).children_of(k) == old(
                    self,
                ).children_of(k)),
            final(self).children_of(parent_key) == old(self).children_of(parent_key).remove(
                child_key,
            ),
            final(self).children@.contains_key(parent_key) <==> (old(self).children@.contains_key(
                parent_key,
            ) && !old(self).children_of(parent_key).remove(child_key).is_empty()),
            *final(self) == (Spreadsheet { children: final(self).children, ..*old(self) }),
    {
        match self.children.remove(&parent_key) {
            Some(mut set) => {
                set.remove(&child_key);
                if set.len() != 0 {
                    self.children.insert(parent_key, set);
                } else {
                    proof {
                        assert(set@.len() == 0);
                        vstd::set_lib::lemma_set_empty_equivalency_len(set@);
                    }
                }
            },
            None => {},
        }
    }

    /// The cells that depend directly on the cell with key `key`, if any were recorded.
    pub fn get_cell_children(&self, key: i32) -> (r: Option<&HashSet<i32>>)
        ensures
            r is Some <==> self.children@.contains_key(key),
            r matches Some(s) ==> *s == self.children@[key],
    {
        self.children.get(&key)
    }

    /// Highlights a cell and the chosen relationship.
    pub fn set_highlight(&mut self, row: i16, col: i16, highlight_type: HighlightType)
        requires
            old(self).dims_ok(),
        ensures
            *final(self) == (Spreadsheet {
                highlight_cell: old(self).key_of(row as int, col as int) as i32,
                highlight_type,
                ..*old(self)
            }),
    {
        self.highlight_cell = self.get_key(row, col);
        self.highlight_type = highlight_type;
    }

    /// Turns highlighting off.
    pub fn disable_highlight(&mut self)
        ensures
            *final(self) == (Spreadsheet {
                highlight_cell: -1i32,
                highlight_type: HighlightType::NoHighlight,
                ..*old(self)
            }),
    {
        self.highlight_cell = -1;
        self.highlight_type = HighlightType::NoHighlight;
    }

    /// Moves the viewport so that the named cell is at its top left.
    pub fn scroll_to_cell(&mut self, cell: &str) -> (st: CommandStatus)
        requires
            old(self).wf(),
        ensures
            match cell_ref_spec(cell@, old(self).rows as int, old(self).cols as int) {
                Some((r, c)) => st == CommandStatus::CmdOk && *final(self) == (Spreadsheet {
                    viewport_row: r,
                    viewport_col: c,
                    ..*old(self)
                }),
                None => st == CommandStatus::Unrecognized && *final(self) == *old(self),
            },
            final(self).wf(),
    {
        match parse_cell_reference(self, cell) {
            Ok((row, col)) => {
                self.viewport_row = row;
                self.viewport_col = col;
                CommandStatus::CmdOk
            },
            Err(_) => CommandStatus::Unrecognized,
        }
    }

    /// Scrolls by ten rows or columns: `w` up, `s` down, `a` left, `d` right. Up and left
    /// stop at 0; down and right stop ten short of the last row or column.
    pub fn scroll_viewport(&mut self, direction: char)
        requires
            old(self).wf(),
        ensures
            final(self).wf(),
            *final(self) == (Spreadsheet {
                viewport_row: scrolled_row(old(self).viewport_row, old(self).rows, direction),
                viewport_col: scrolled_col(old(self).viewport_col, old(self).cols, direction),
                ..*old(self)
            }),
    {
        if direction == 'w' {
            self.viewport_row = if self.viewport_row > 10 {
                self.viewport_row - 10
            } else {
                0
            };
        } else if direction == 's' {
            if self.viewport_row + 10 < self.rows - 9 {
                self.viewport_row = self.viewport_row + 10;
            } else {
                self.viewport_row = self.rows - 10;
            }
        } else if direction == 'a' {
            self.viewport_col = if self.viewport_col > 10 {
                self.viewport_col - 10
            } else {
                0
            };
        } else if direction == 'd' {
            if self.viewport_col + 10 < self.cols - 9 {
                self.viewport_col = self.viewport_col + 10;
            } else {
                self.viewport_col = self.cols - 10;
            }
        }
    }

    /// Locks every cell of `range` against assignment.
    pub fn lock_range(&mut self, range: Range)
        ensures
            final(self).locked_ranges@ == old(self).locked_ranges@.push(range),
            *final(self) == (Spreadsheet {
                locked_ranges: final(self).locked_ranges,
                ..*old(self)
            }),
    {
        self.locked_ranges.push(range);
    }

    /// Removes every locked range equal to `range`.
    pub fn unlock_range(&mut self, range: Range)
        ensures
            final(self).locked_ranges@ == old(self).locked_ranges@.filter(|r: Range| r != range),
            *final(self) == (Spreadsheet {
                locked_ranges: final(self).locked_ranges,
                ..*old(self)
            }),
    {
        let mut kept: Vec<Range> = Vec::new();
        let mut i: usize = 0;
        let ghost f = |r: Range| r != range;
        while i < self.locked_ranges.len()
            invariant
                0 <= i <= self.locked_ranges@.len(),
                kept@ == self.locked_ranges@.subrange(0, i as int).filter(f),
                f == (|r: Range| r != range),
            decreases self.locked_ranges@.len() - i,
        {
            let r = self.locked_ranges[i];
            proof {
                let s = self.locked_ranges@;
                assert(s.subrange(0, i + 1).drop_last() =~= s.subrange(0, i as int));
                reveal_with_fuel(Seq::<_>::filter, 1);
            }
            if r != range {
                kept.push(r);
            }
            i += 1;
        }
        proof {
            assert(self.locked_ranges@.subrange(0, i as int) =~= self.locked_ranges@);
        }
        self.locked_ranges = kept;
    }

    /// Whether a locked range covers the cell.
    pub fn is_cell_locked(&self, row: i16, col: i16) -> (b: bool)
        ensures
            b == self.locked(row as int, col as int),
    {
        let mut i: usize = 0;
        while i < self.locked_ranges.len()
            invariant
                0 <= i <= self.locked_ranges@.len(),
                forall|j: int| 0 <= j < i ==> !(#[trigger] self.locked_ranges@[j]).contains(row as int, col as int),
            decreases self.locked_ranges@.len() - i,
        {
            let range = self.locked_ranges[i];
            if row >= range.start_row && row <= range.end_row && col >= range.start_col && col
                <= range.end_col {
                proof {
                    assert(self.locked_ranges@[i as int].contains(row as int, col as int));
                }
                return true;
            }
            i += 1;
        }
        false
    }

    /// Remembers the last assigned cell.
    pub fn set_last_edited(&mut self, row: i16, col: i16)
        ensures
            *final(self) == (Spreadsheet { last_edited: Some((row, col)), ..*old(self) }),
    {
        self.last_edited = Some((row, col));
    }

    /// Moves the viewport's top left to the last assigned cell, if there is one.
    pub fn scroll_to_last_edited(&mut self)
        requires
            old(self).wf(),
        ensures
            final(self).wf(),
            match old(self).last_edited {
                Some((r, c)) => *final(self) == (Spreadsheet {
                    viewport_row: r,
                    viewport_col: c,
                    ..*old(self)
                }),
                None => *final(self) == *old(self),
            },
    {
        if let Some((row, col)) = self.last_edited {
            self.viewport_row = row;
            self.viewport_col = col;
        }
    }

    /// The name of a column: `A` to `Z`, then `AA`, `AB`, and so on; `A` for column -1 and
    /// the empty string below that.
    pub fn get_column_name(&self, col: i16) -> (s: String)
        requires
            col < i16::MAX,
        ensures
            s@ == column_name_spec(col as int),
    {
        if col == -1 {
            let mut s = String::new();
            push_char(&mut s, 'A');
            return s;
        }
        if col < -1 {
            return String::new();
        }
        let v = letters_rev((col + 1) as u32);
        let mut s = String::new();
        let mut i = v.len();
        while i > 0
            invariant
                0 <= i <= v.len(),
                s@ == v@.subrange(i as int, v@.len() as int).reverse(),
            decreases i,
        {
            i -= 1;
            push_char(&mut s, v[i]);
            proof {
                assert(v@.subrange(i as int, v@.len() as int).reverse() =~= v@.subrange(
                    i + 1,
                    v@.len() as int,
                ).reverse().push(v@[i as int]));
            }
        }
        proof {
            assert(v@.subrange(0, v@.len() as int) =~= v@);
            assert(v@.reverse().reverse() =~= v@);
        }
        s
    }
}

/// The name of column `col`, as [`Spreadsheet::get_column_name`] gives it.
pub open spec fn column_name_spec(col: int) -> Seq<char> {
    if col == -1 {
        seq!['A']
    } else if col < -1 {
        seq![]
    } else {
        col_letters((col + 1) as nat)
    }
}

/// The letters of the column with bijective value `n`, last letter first.
fn letters_rev(n: u32) -> (v: Vec<char>)
    ensures
        v@.reverse() == col_letters(n as nat),
    decreases n,
{
    if n == 0 {
        let v: Vec<char> = Vec::new();
        proof {
            assert(v@.reverse() =~= col_letters(0));
        }
        return v;
    }
    let d = ((n - 1) % 26) as u8;
    let c = (65u8 + d) as char;
    let mut v: Vec<char> = Vec::new();
    v.push(c);
    let rest = letters_rev((n - 1) / 26);
    let mut i: usize = 0;
    while i < rest.len()
        invariant
            0 <= i <= rest.len(),
            v@ == seq![c] + rest@.subrange(0, i as int),
        decreases rest.len() - i,
    {
        v.push(rest[i]);
        i += 1;
        proof {
            assert(v@ =~= seq![c] + rest@.subrange(0, i as int));
        }
    }
    proof {
        assert(rest@.subrange(0, rest@.len() as int) =~= rest@);
        assert((seq![c] + rest@).reverse() =~= rest@.reverse().push(c));
    }
    v
}

/// Row of the viewport after scrolling in `direction`.
pub open spec fn scrolled_row(vr: i16, rows: i16, direction: char) -> i16 {
    if direction == 'w' {
        if vr > 10 {
            (vr - 10) as i16
        } else {
            0
        }
    } else if direction == 's' {
        if vr + 10 < rows - 9 {
            (vr + 10) as i16
        } else {
            (rows - 10) as i16
        }
    } else {
        vr
    }
}

/// Column of the viewport after scrolling in `direction`.
pub open spec fn scrolled_col(vc: i16, cols: i16, direction: char) -> i16 {
    if direction == 'a' {
        if vc > 10 {
            (vc - 10) as i16
        } else {
            0
        }
    } else if direction == 'd' {
        if vc + 10 < cols - 9 {
            (vc + 10) as i16
        } else {
            (cols - 10) as i16
        }
    } else {
        vc
    }
}

pub proof fn lemma_key_bounds(r: int, c: int, cols: int)
    requires
        1 <= cols <= 18278,
        i16::MIN <= r <= i16::MAX,
        i16::MIN <= c <= i16::MAX,
    ensures
        -32768 * 18278 <= r * cols <= 32767 * 18278,
        i32::MIN <= r * cols + c <= i32::MAX,
        r >= 0 && c >= 0 ==> r * cols + c >= 0,
{
    assert(-32768 * 18278 <= r * cols <= 32767 * 18278) by (nonlinear_arith)
        requires
            1 <= cols <= 18278,
            -32768 <= r <= 32767,
    ;
    assert(r >= 0 ==> r * cols >= 0) by (nonlinear_arith)
        requires
            1 <= cols,
    ;
}

pub proof fn lemma_tdiv_bounds(k: int, c: int)
    requires
        c >= 1,
        i32::MIN <= k <= i32::MAX,
    ensures
        i32::MIN <= tdiv(k, c) <= i32::MAX,
        i32::MIN <= tmod(k, c) <= i32::MAX,
        k >= 0 ==> 0 <= c * tdiv(k, c) <= k,
        k < 0 ==> k <= c * tdiv(k, c) <= 0,
        k >= 0 ==> 0 <= tmod(k, c) < c,
        k < 0 ==> -c < tmod(k, c) <= 0,
{
    if k >= 0 {
        assert(0 <= k / c <= k) by (nonlinear_arith)
            requires
                k >= 0,
                c >= 1,
        ;
        assert(0 <= c * (k / c) <= k && 0 <= k - c * (k / c) < c) by (nonlinear_arith)
            requires
                k >= 0,
                c >= 1,
        ;
    } else {
        let n = -k;
        assert(0 <= n / c <= n) by (nonlinear_arith)
            requires
                n > 0,
                c >= 1,
        ;
        assert(0 <= c * (n / c) <= n && 0 <= n - c * (n / c) < c) by (nonlinear_arith)
            requires
                n >= 0,
                c >= 1,
        ;
        assert(c * (-(n / c)) == -(c * (n / c))) by (nonlinear_arith);
    }
}

/// The value of a key's coordinates when the key names a cell of the sheet.
pub proof fn lemma_key_roundtrip(r: int, c: int, rows: int, cols: int)
    requires
        0 <= r < rows,
        0 <= c < cols,
        cols >= 1,
    ensures
        tdiv(r * cols + c, cols) == r,
        tmod(r * cols + c, cols) == c,
        0 <= r * cols + c < rows * cols,
{
    assert((r * cols + c) / cols == r) by (nonlinear_arith)
        requires
            0 <= r,
            0 <= c < cols,
            cols >= 1,
    ;
    assert(cols * r == r * cols) by (nonlinear_arith);
    assert(0 <= r * cols + c < rows * cols) by (nonlinear_arith)
        requires
            0 <= r < rows,
            0 <= c < cols,
            cols >= 1,
    ;
}

/// A key of the sheet splits back into coordinates of the sheet.
pub proof fn lemma_key_split(k: int, rows: int, cols: int)
    requires
        0 <= k < rows * cols,
        cols >= 1,
    ensures
        0 <= tdiv(k, cols) < rows,
        0 <= tmod(k, cols) < cols,
        tdiv(k, cols) * cols + tmod(k, cols) == k,
{
    assert(0 <= k / cols < rows && 0 <= k % cols < cols && (k / cols) * cols + k % cols == k)
        by (nonlinear_arith)
        requires
            0 <= k < rows * cols,
            cols >= 1,
    ;
    assert(k - cols * (k / cols) == k % cols) by (nonlinear_arith)
        requires
            cols >= 1,
    ;
}

pub proof fn lemma_letters_value_ge0(s: Seq<char>)
    requires
        forall|j: int| 0 <= j < s.len() ==> 'A' <= #[trigger] s[j],
    ensures
        letters_value(s) >= 0,
    decreases s.len(),
{
    if s.len() > 0 {
        lemma_letters_value_ge0(s.drop_last());
    }
}

/// A prefix of a column name reads as no more than the whole name.
pub proof fn lemma_letters_value_prefix(s: Seq<char>, n: int)
    requires
        0 <= n <= s.len(),
        forall|j: int| 0 <= j < s.len() ==> 'A' <= #[trigger] s[j],
    ensures
        0 <= letters_value(s.subrange(0, n)) <= letters_value(s),
    decreases s.len() - n,
{
    lemma_letters_value_ge0(s.subrange(0, n));
    if n < s.len() {
        let t = s.subrange(0, n + 1);
        assert(t.drop_last() =~= s.subrange(0, n));
        lemma_letters_value_prefix(s, n + 1);
    } else {
        assert(s.subrange(0, n) =~= s);
    }
}

} // verus!
