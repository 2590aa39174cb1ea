//! The text shown for the visible part of a sheet: column names, row numbers and values,
//! each padded to its column, with colours for highlighted cells.
use vstd::prelude::*;
use crate::cell::CellValue;
use crate::extensions::highlight_spec;
use crate::spreadsheet::{HighlightType, Spreadsheet, column_name_spec};
use crate::text::{chars_of, int_text, push_char, push_chars, push_int, push_str};

verus! {

/// `n` spaces.
pub open spec fn spaces(n: int) -> Seq<char> {
    Seq::new(n as nat, |i: int| ' ')
}

/// `s` padded with spaces on the right to `w` characters, as `{:<w}` writes it.
pub open spec fn pad(s: Seq<char>, w: int) -> Seq<char> {
    if s.len() < w {
        s + spaces(w - s.len())
    } else {
        s
    }
}

/// A value as the sheet shows it: the number, or `ERR`.
pub open spec fn shown(v: CellValue) -> Seq<char> {
    match v {
        CellValue::Integer(n) => int_text(n as int),
        CellValue::Error => "ERR"@,
    }
}

/// The names of `n` columns from `sc`, each padded to 8 and followed by a space.
pub open spec fn header_cells(sc: int, n: int) -> Seq<char>
    decreases n,
{
    if n <= 0 {
        Seq::empty()
    } else {
        header_cells(sc, n - 1) + pad(column_name_spec(sc + n - 1), 8) + seq![' ']
    }
}

/// Colour codes.
pub open spec fn reset_code() -> Seq<char> {
    seq!['\u{1b}', '[', '0', 'm']
}

pub open spec fn colour_code(c: char) -> Seq<char> {
    seq!['\u{1b}', '[', '1', ';', '3', c, 'm']
}

/// The colour a cell is shown in: cyan for the highlighted cell, red for a cell it reads,
/// green for a cell that reads it, none otherwise.
pub open spec fn cell_colour(sheet: &Spreadsheet, k: i32) -> Seq<char> {
    let (h, t) = highlight_spec(sheet, k);
    if k == sheet.highlight_cell {
        colour_code('6')
    } else if h && t == HighlightType::Parent {
        colour_code('1')
    } else if h && t == HighlightType::Child {
        colour_code('2')
    } else {
        Seq::empty()
    }
}

/// The values of `n` cells of row `r` from column `sc`, each padded to 8 and followed by a
/// space; with `hl`, each in its colour and followed by the reset code.
pub open spec fn row_cells(sheet: &Spreadsheet, r: int, sc: int, n: int, hl: bool) -> Seq<char>
    decreases n,
{
    if n <= 0 {
        Seq::empty()
    } else {
        let k = sheet.key_of(r, sc + n - 1);
        row_cells(sheet, r, sc, n - 1, hl) + (if hl {
            cell_colour(sheet, k as i32)
        } else {
            Seq::empty()
        }) + pad(shown(sheet.grid@[k]), 8) + seq![' '] + (if hl {
            reset_code()
        } else {
            Seq::empty()
        })
    }
}

/// `nr` rows from `sr`: the row number from 1 padded to 4, a space, then the row's cells.
pub open spec fn rows_block(sheet: &Spreadsheet, sr: int, sc: int, nr: int, nc: int, hl: bool) -> Seq<char>
    decreases nr,
{
    if nr <= 0 {
        Seq::empty()
    } else {
        rows_block(sheet, sr, sc, nr - 1, nc, hl) + pad(int_text(sr + nr), 4) + seq![' '] + row_cells(
            sheet,
            sr + nr - 1,
            sc,
            nc,
            hl,
        ) + seq!['\n']
    }
}

/// The number of rows (or columns) shown from `start` of `total`: at most 10.
pub open spec fn shown_count(total: int, start: int) -> int {
    if total - start < 10 {
        total - start
    } else {
        10
    }
}

/// The visible part of the sheet: a header line of column names, then the rows.
pub open spec fn view_text(sheet: &Spreadsheet, hl: bool) -> Seq<char> {
    let sr = sheet.viewport_row as int;
    let sc = sheet.viewport_col as int;
    let nr = shown_count(sheet.rows as int, sr);
    let nc = shown_count(sheet.cols as int, sc);
    "     "@ + header_cells(sc, nc) + seq!['\n'] + rows_block(sheet, sr, sc, nr, nc, hl)
}

/// Appends `t` padded to `w` characters.
fn push_padded(s: &mut String, t: &Vec<char>, w: usize)
    requires
        w < 100,
    ensures
        final(s)@ == old(s)@ + pad(t@, w as int),
{
    push_chars(s, t);
    let mut i = t.len();
    let ghost s0 = s@;
    while i < w
        invariant
            t@.len() <= i <= w || (t@.len() >= w && i == t@.len()),
            s@ == s0 + spaces(i - t@.len()),
        decreases w - i,
    {
        push_char(s, ' ');
        proof {
            assert(spaces(i + 1 - t@.len()) =~= spaces(i - t@.len()).push(' '));
        }
        i += 1;
    }
    proof {
        if t@.len() < w {
            assert(s@ =~= old(s)@ + pad(t@, w as int));
        } else {
            assert(spaces(0) =~= Seq::<char>::empty());
            assert(s@ =~= old(s)@ + pad(t@, w as int));
        }
    }
}

/// Appends a value padded to 8 characters.
fn push_value(s: &mut String, v: CellValue)
    ensures
        final(s)@ == old(s)@ + pad(shown(v), 8),
{
    let mut t = String::new();
    match v {
        CellValue::Integer(n) => push_int(&mut t, n as i64),
        CellValue::Error => {
            proof {
                reveal_strlit("ERR");
            }
            push_str(&mut t, "ERR");
        },
    }
    let c = chars_of(t.as_str());
    push_padded(s, &c, 8);
}

/// Appends the colour code of the cell `k`.
fn push_colour(s: &mut String, sheet: &Spreadsheet, k: i32)
    requires
        sheet.dims_ok(),
    ensures
        final(s)@ == old(s)@ + cell_colour(sheet, k),
{
    let (h, t) = sheet.is_highlighted(k);
    if k == sheet.highlight_cell {
        push_chars(s, &colour(0));
    } else if h && t == HighlightType::Parent {
        push_chars(s, &colour(1));
    } else if h && t == HighlightType::Child {
        push_chars(s, &colour(2));
    } else {
        proof {
            assert(old(s)@ + cell_colour(sheet, k) =~= old(s)@);
        }
    }
}

/// The colour code for the main cell (0), a cell it reads (1), or one that reads it (2).
fn colour(which: u8) -> (v: Vec<char>)
    requires
        which <= 2,
    ensures
        which == 0 ==> v@ == colour_code('6'),
        which == 1 ==> v@ == colour_code('1'),
        which == 2 ==> v@ == colour_code('2'),
{
    let d = if which == 0 {
        '6'
    } else if which == 1 {
        '1'
    } else {
        '2'
    };
    let v = vec!['\u{1b}', '[', '1', ';', '3', d, 'm'];
    proof {
        assert(v@ =~= colour_code(d));
    }
    v
}

/// Appends `n` cells of row `r` from column `sc`.
fn push_row_cells(s: &mut String, sheet: &Spreadsheet, r: i16, sc: i16, n: i16, hl: bool)
    requires
        sheet.wf(),
        0 <= r < sheet.rows,
        0 <= sc,
        0 <= n,
        sc + n <= sheet.cols,
    ensures
        final(s)@ == old(s)@ + row_cells(sheet, r as int, sc as int, n as int, hl),
{
    let mut j: i16 = 0;
    let ghost s0 = s@;
    proof {
        assert(s@ =~= s0 + row_cells(sheet, r as int, sc as int, 0, hl));
    }
    while j < n
        invariant
            sheet.wf(),
            0 <= r < sheet.rows,
            0 <= sc,
            0 <= j <= n,
            sc + n <= sheet.cols,
            s@ == s0 + row_cells(sheet, r as int, sc as int, j as int, hl),
        decreases n - j,
    {
        let col = sc + j;
        proof {
            crate::evaluator::lemma_cell_key(sheet, r as int, col as int);
        }
        let k = sheet.get_key(r, col);
        if hl {
            push_colour(s, sheet, k);
        }
        push_value(s, *sheet.get_cell(r, col));
        push_char(s, ' ');
        if hl {
            let rc = vec!['\u{1b}', '[', '0', 'm'];
            proof {
                assert(rc@ =~= reset_code());
            }
            push_chars(s, &rc);
        }
        proof {
            assert(s@ =~= s0 + row_cells(sheet, r as int, sc as int, j + 1, hl));
        }
        j += 1;
    }
}

/// Appends the line of row `r`: its number from 1, then `n` of its cells from column `sc`.
fn push_row(s: &mut String, sheet: &Spreadsheet, r: i16, sc: i16, n: i16, hl: bool)
    requires
        sheet.wf(),
        0 <= r < sheet.rows,
        0 <= sc,
        0 <= n,
        sc + n <= sheet.cols,
    ensures
        final(s)@ == old(s)@ + pad(int_text(r + 1), 4) + seq![' '] + row_cells(sheet, r as int, sc as int, n as int, hl)
            + seq!['\n'],
{
    let mut t = String::new();
    push_int(&mut t, (r + 1) as i64);
    let c = chars_of(t.as_str());
    proof {
        assert(c@ =~= int_text(r + 1));
    }
    push_padded(s, &c, 4);
    push_char(s, ' ');
    push_row_cells(s, sheet, r, sc, n, hl);
    push_char(s, '\n');
    proof {
        assert(final(s)@ =~= old(s)@ + pad(int_text(r + 1), 4) + seq![' '] + row_cells(sheet, r as int, sc as int, n as int, hl)
            + seq!['\n']);
    }
}

impl Spreadsheet {
    /// The visible part of the sheet with highlighted cells in colour, as [`view_text`]
    /// says; nothing when output is off.
    pub fn print_spreadsheet_with_highlights(&self) -> (s: String)
        requires
            self.wf(),
            self.viewport_row >= 0,
            self.viewport_col >= 0,
        ensures
            s@ == if self.output_enabled {
                view_text(self, true)
            } else {
                Seq::empty()
            },
    {
        if !self.output_enabled {
            return String::new();
        }
        self.view(true)
    }

    /// What printing the sheet shows: nothing when output is off, the highlighted view when
    /// a highlight is on, else the plain view, as [`view_text`] says.
    pub fn print_spreadsheet(&self) -> (s: String)
        requires
            self.wf(),
            self.viewport_row >= 0,
            self.viewport_col >= 0,
        ensures
            s@ == if !self.output_enabled {
                Seq::empty()
            } else if self.highlight_type != HighlightType::NoHighlight {
                view_text(self, true)
            } else {
                view_text(self, false)
            },
    {
        if !self.output_enabled {
            return String::new();
        }
        let hl = self.highlight_type != HighlightType::NoHighlight;
        self.view(hl)
    }

    /// The visible part of the sheet.
    fn view(&self, hl: bool) -> (s: String)
        requires
            self.wf(),
            self.viewport_row >= 0,
            self.viewport_col >= 0,
        ensures
            s@ == view_text(self, hl),
    {
        let sr = self.viewport_row;
        let sc = self.viewport_col;
        let nr = if self.rows - sr < 10 {
            self.rows - sr
        } else {
            10
        };
        let nc = if self.cols - sc < 10 {
            self.cols - sc
        } else {
            10
        };
        let mut s = String::new();
        push_str(&mut s, "     ");
        let ghost h0 = s@;
        let mut i: i16 = 0;
        while i < nc
            invariant
                0 <= i <= nc <= 10,
                sc + nc <= self.cols <= 18278,
                0 <= sc,
                s@ == h0 + header_cells(sc as int, i as int),
            decreases nc - i,
        {
            let name = self.get_column_name(sc + i);
            let c = chars_of(name.as_str());
            push_padded(&mut s, &c, 8);
            push_char(&mut s, ' ');
            proof {
                assert(s@ =~= h0 + header_cells(sc as int, i + 1));
            }
            i += 1;
        }
        push_char(&mut s, '\n');
        let ghost b0 = s@;
        proof {
            assert(s@ =~= b0 + rows_block(self, sr as int, sc as int, 0, nc as int, hl));
        }
        let mut i: i16 = 0;
        while i < nr
            invariant
                self.wf(),
                0 <= i <= nr <= 10,
                sr + nr <= self.rows,
                sc + nc <= self.cols,
                0 <= sr,
                0 <= sc,
                0 <= nc,
                s@ == b0 + rows_block(self, sr as int, sc as int, i as int, nc as int, hl),
            decreases nr - i,
        {
            push_row(&mut s, self, sr + i, sc, nc, hl);
            proof {
                assert(s@ =~= b0 + rows_block(self, sr as int, sc as int, i + 1, nc as int, hl));
            }
            i += 1;
        }
        proof {
            reveal_strlit("     ");
            assert(s@ =~= view_text(self, hl));
        }
        s
    }
}

} // verus!
