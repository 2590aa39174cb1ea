//! The text form of a sheet: writing it out, and reading it back line by line.
use vstd::prelude::*;
use crate::cell::{CellValue, cell_ref_spec, parse_cell_ref_chars};
use crate::evaluator::{assign_formula, lemma_cell_key, lemma_deps_ok_grid, recordable, relinked, sheet_ok};
use crate::graph::edge;
use std::collections::HashMap;
use crate::formula::{find_from, lemma_find_from};
use crate::graph::{formula_kind, reads_range, rem10};
use crate::reevaluate_topo::{deps_ok, key_ok, meta_readable, range_ordered};
use crate::spreadsheet::{CellMeta, CommandStatus, Spreadsheet, column_name_spec};
use crate::text::{int_text, parse_i32_chars, parse_i32_spec, push_char, push_int, push_str, sub_chars, text_is, chars_of};
use crate::formula::{count_ok, key_rect, range_ok};

verus! {

broadcast use vstd::std_specs::hash::group_hash_axioms;

/// The reference of the cell (r, c) as written: column letters, then the row from 1.
pub open spec fn ref_text(r: int, c: int) -> Seq<char> {
    column_name_spec(c) + int_text(r + 1)
}

/// The reference of the cell whose key is `k`.
pub open spec fn key_ref(sheet: &Spreadsheet, k: i32) -> Seq<char> {
    ref_text(sheet.row_of(k as int) as int, sheet.col_of(k as int) as int)
}

/// A formula operand as written: the reference of its key's cell, or nothing for -1.
pub open spec fn parent_text(sheet: &Spreadsheet, p: i32) -> Seq<char> {
    if p != -1 {
        key_ref(sheet, p)
    } else {
        Seq::empty()
    }
}

/// A value as written: the number, or `ERR`.
pub open spec fn value_text(v: CellValue) -> Seq<char> {
    match v {
        CellValue::Integer(n) => int_text(n as int),
        CellValue::Error => "ERR"@,
    }
}

/// What follows the value on the line of the cell `k`: `,FORMULA,code,operand,operand`
/// for a cell with a formula, else nothing.
pub open spec fn formula_tail(sheet: &Spreadsheet, k: int) -> Seq<char> {
    let m = sheet.cell_meta@[k as i32];
    if sheet.cell_meta@.contains_key(k as i32) && m.formula != -1 {
        ",FORMULA,"@ + int_text(m.formula as int) + seq![','] + parent_text(sheet, m.parent1) + seq![',']
            + parent_text(sheet, m.parent2)
    } else {
        Seq::empty()
    }
}

/// The text of the line of the cell (r, c): `CELL,ref,value`, then its formula tail.
pub open spec fn cell_text(sheet: &Spreadsheet, r: int, c: int) -> Seq<char> {
    let k = sheet.key_of(r, c);
    "CELL,"@ + ref_text(r, c) + seq![','] + value_text(sheet.grid@[k]) + formula_tail(sheet, k)
}

/// Whether the cell (r, c) gets a line: its value is not 0, or it has metadata.
pub open spec fn has_line(sheet: &Spreadsheet, r: int, c: int) -> bool {
    let k = sheet.key_of(r, c);
    sheet.grid@[k] != CellValue::Integer(0) || sheet.cell_meta@.contains_key(k as i32)
}

/// The line written for the cell (r, c), ended by a line feed, or nothing for a cell that
/// gets none.
pub open spec fn cell_line(sheet: &Spreadsheet, r: int, c: int) -> Seq<char> {
    if has_line(sheet, r, c) {
        cell_text(sheet, r, c) + seq!['\n']
    } else {
        Seq::empty()
    }
}

/// The lines of the first `n` cells, row by row.
pub open spec fn cells_text(sheet: &Spreadsheet, n: int) -> Seq<char>
    decreases n,
{
    if n <= 0 {
        Seq::empty()
    } else {
        cells_text(sheet, n - 1) + cell_line(sheet, (n - 1) / sheet.cols as int, (n - 1) % sheet.cols as int)
    }
}

/// The text of a sheet: `DIMS,rows,cols`, then a line per cell that is not 0 or has
/// metadata.
pub open spec fn sheet_text(sheet: &Spreadsheet) -> Seq<char> {
    "DIMS,"@ + int_text(sheet.rows as int) + seq![','] + int_text(sheet.cols as int) + seq!['\n']
        + cells_text(sheet, sheet.rows * sheet.cols)
}

/// Appends the reference of the cell (r, c).
pub(crate) fn push_ref(s: &mut String, sheet: &Spreadsheet, r: i16, c: i16)
    requires
        c < i16::MAX,
    ensures
        final(s)@ == old(s)@ + ref_text(r as int, c as int),
{
    let name = sheet.get_column_name(c);
    push_str(s, name.as_str());
    push_int(s, r as i64 + 1);
    proof {
        assert(final(s)@ =~= old(s)@ + ref_text(r as int, c as int));
    }
}

/// Appends the reference of the cell whose key is `k`.
pub(crate) fn push_key_ref(s: &mut String, sheet: &Spreadsheet, k: i32)
    requires
        sheet.dims_ok(),
    ensures
        final(s)@ == old(s)@ + key_ref(sheet, k),
{
    let (r, c) = sheet.get_row_col(k);
    proof {
        crate::spreadsheet::lemma_tdiv_bounds(k as int, sheet.cols as int);
    }
    push_ref(s, sheet, r, c);
}

/// Appends a formula operand as written.
fn push_parent(s: &mut String, sheet: &Spreadsheet, p: i32)
    requires
        sheet.dims_ok(),
    ensures
        final(s)@ == old(s)@ + parent_text(sheet, p),
{
    if p != -1 {
        push_key_ref(s, sheet, p);
    } else {
        proof {
            assert(old(s)@ + parent_text(sheet, p) =~= old(s)@);
        }
    }
}

/// Appends the formula tail of the cell `k`.
fn push_formula_tail(s: &mut String, sheet: &Spreadsheet, k: i32)
    requires
        sheet.dims_ok(),
    ensures
        final(s)@ == old(s)@ + formula_tail(sheet, k as int),
{
    proof {
        reveal_strlit(",FORMULA,");
    }
    match sheet.cell_meta.get(&k) {
        Some(m) => {
            if m.formula != -1 {
                push_str(s, ",FORMULA,");
                push_int(s, m.formula as i64);
                push_char(s, ',');
                push_parent(s, sheet, m.parent1);
                push_char(s, ',');
                push_parent(s, sheet, m.parent2);
                proof {
                    assert(final(s)@ =~= old(s)@ + formula_tail(sheet, k as int));
                }
            } else {
                proof {
                    assert(final(s)@ =~= old(s)@ + formula_tail(sheet, k as int));
                }
            }
        },
        None => {
            proof {
                assert(final(s)@ =~= old(s)@ + formula_tail(sheet, k as int));
            }
        },
    }
}

/// Appends the line of the cell (r, c).
fn push_cell_line(s: &mut String, sheet: &Spreadsheet, r: i16, c: i16)
    requires
        sheet.wf(),
        sheet.valid_cell(r as int, c as int),
    ensures
        final(s)@ == old(s)@ + cell_line(sheet, r as int, c as int),
{
    proof {
        lemma_cell_key(sheet, r as int, c as int);
        reveal_strlit("CELL,");
        reveal_strlit("ERR");
    }
    let key = sheet.get_key(r, c);
    let v = *sheet.get_cell(r, c);
    let has_meta = sheet.cell_meta.contains_key(&key);
    if v == CellValue::Integer(0) && !has_meta {
        proof {
            assert(old(s)@ + cell_line(sheet, r as int, c as int) =~= old(s)@);
        }
        return;
    }
    let ghost s0 = s@;
    push_str(s, "CELL,");
    push_ref(s, sheet, r, c);
    push_char(s, ',');
    match v {
        CellValue::Integer(n) => push_int(s, n as i64),
        CellValue::Error => push_str(s, "ERR"),
    }
    let ghost s1 = s@;
    push_formula_tail(s, sheet, key);
    push_char(s, '\n');
    proof {
        assert(s1 =~= s0 + "CELL,"@ + ref_text(r as int, c as int) + seq![','] + value_text(v));
        assert(s@ =~= old(s)@ + cell_line(sheet, r as int, c as int));
    }
}

/// The text of the sheet, as [`sheet_text`] says.
pub fn save_spreadsheet(sheet: &Spreadsheet) -> (s: String)
    requires
        sheet.wf(),
    ensures
        s@ == sheet_text(sheet),
{
    proof {
        reveal_strlit("DIMS,");
    }
    let mut s = String::new();
    push_str(&mut s, "DIMS,");
    push_int(&mut s, sheet.rows as i64);
    push_char(&mut s, ',');
    push_int(&mut s, sheet.cols as i64);
    push_char(&mut s, '\n');
    let ghost head = s@;
    let n: usize = sheet.grid.len();
    let cols = sheet.cols as usize;
    let mut k: usize = 0;
    while k < n
        invariant
            sheet.wf(),
            n == sheet.rows * sheet.cols,
            cols == sheet.cols,
            0 <= k <= n,
            s@ == head + cells_text(sheet, k as int),
        decreases n - k,
    {
        let r = k / cols;
        let c = k % cols;
        proof {
            assert(r < sheet.rows) by (nonlinear_arith)
                requires
                    k < sheet.rows * sheet.cols,
                    r == (k as int) / (sheet.cols as int),
                    sheet.cols >= 1,
            ;
            assert(c < sheet.cols) by (nonlinear_arith)
                requires
                    c == (k as int) % (sheet.cols as int),
                    sheet.cols >= 1,
            ;
            assert(sheet.key_of(r as int, c as int) == k) by (nonlinear_arith)
                requires
                    r == (k as int) / (sheet.cols as int),
                    c == (k as int) % (sheet.cols as int),
                    sheet.cols >= 1,
            ;
        }
        push_cell_line(&mut s, sheet, r as i16, c as i16);
        k += 1;
        proof {
            assert(s@ =~= head + cells_text(sheet, k as int));
        }
    }
    s
}


pub proof fn lemma_find_from_range(s: Seq<char>, ch: char, i: int)
    requires
        0 <= i,
    ensures
        find_from(s, ch, i) == -1 || (i <= find_from(s, ch, i) < s.len() && s[find_from(s, ch, i)] == ch),
    decreases s.len() - i,
{
    if i < s.len() && s[i] != ch {
        lemma_find_from_range(s, ch, i + 1);
    }
}

/// The views of a sequence of character vectors.
pub open spec fn views(v: Seq<Vec<char>>) -> Seq<Seq<char>> {
    v.map_values(|p: Vec<char>| p@)
}

/// The pieces of `s` between commas, as `str::split(',')` gives them.
pub open spec fn split_commas(s: Seq<char>) -> Seq<Seq<char>>
    decreases s.len(),
{
    let i = find_from(s, ',', 0);
    if i == -1 {
        seq![s]
    } else {
        proof {
            lemma_find_from_range(s, ',', 0);
        }
        seq![s.subrange(0, i)] + split_commas(s.subrange(i + 1, s.len() as int))
    }
}

/// The pieces of `t` between commas.
fn split_at_commas(t: &Vec<char>) -> (parts: Vec<Vec<char>>)
    ensures
        views(parts@) == split_commas(t@),
{
    let mut parts: Vec<Vec<char>> = Vec::new();
    let mut start: usize = 0;
    let mut i: usize = 0;
    let ghost mut acc: Seq<Seq<char>> = Seq::empty();
    proof {
        assert(t@.subrange(0, t@.len() as int) =~= t@);
        assert(acc + split_commas(t@) =~= split_commas(t@));
    }
    while i < t.len()
        invariant
            0 <= start <= i <= t.len(),
            forall|k: int| start <= k < i ==> t@[k] != ',',
            acc.len() == parts@.len(),
            forall|j: int| 0 <= j < parts@.len() ==> #[trigger] parts@[j]@ == acc[j],
            split_commas(t@) == acc + split_commas(t@.subrange(start as int, t@.len() as int)),
        decreases t.len() - i,
    {
        if t[i] == ',' {
            let ghost u = t@.subrange(start as int, t@.len() as int);
            proof {
                assert forall|k: int| 0 <= k < i - start implies u[k] != ',' by {
                    assert(u[k] == t@[start + k]);
                }
                assert(u[i - start] == ',');
                lemma_find_from(u, ',', 0, i - start);
                assert(u.subrange(0, i - start) =~= t@.subrange(start as int, i as int));
                assert(u.subrange(i - start + 1, u.len() as int) =~= t@.subrange(i + 1, t@.len() as int));
                assert(split_commas(u) == seq![u.subrange(0, i - start)] + split_commas(
                    u.subrange(i - start + 1, u.len() as int),
                ));
            }
            let piece = sub_chars(t, start, i);
            proof {
                let rest = split_commas(t@.subrange(i + 1, t@.len() as int));
                assert(acc + (seq![piece@] + rest) =~= acc.push(piece@) + rest);
                acc = acc.push(piece@);
            }
            parts.push(piece);
            start = i + 1;
        }
        i += 1;
    }
    let ghost u = t@.subrange(start as int, t@.len() as int);
    proof {
        assert forall|k: int| 0 <= k < u.len() implies u[k] != ',' by {
            assert(u[k] == t@[start + k]);
        }
        lemma_find_from(u, ',', 0, u.len() as int);
        assert(split_commas(u) == seq![u]);
    }
    let piece = sub_chars(t, start, t.len());
    proof {
        assert(acc + seq![piece@] =~= acc.push(piece@));
        acc = acc.push(piece@);
    }
    parts.push(piece);
    proof {
        assert(views(parts@) =~= acc);
    }
    parts
}

/// The key of the cell a written operand names, or -1.
pub open spec fn parent_key(sheet: &Spreadsheet, s: Seq<char>) -> i32 {
    match cell_ref_spec(s, sheet.rows as int, sheet.cols as int) {
        Some((r, c)) => sheet.key_of(r as int, c as int) as i32,
        None => -1i32,
    }
}

/// The formula code as read by `parse::<i16>`, or -1.
pub open spec fn code_of(s: Seq<char>) -> i16 {
    match parse_i32_spec(s) {
        Some(v) => if i16::MIN <= v <= i16::MAX {
            v as i16
        } else {
            -1i16
        },
        None => -1i16,
    }
}

/// The formula a `CELL` line gives its cell, if any.
pub open spec fn line_formula(sheet: &Spreadsheet, parts: Seq<Seq<char>>) -> Option<CellMeta> {
    if parts.len() >= 6 && parts[3] == "FORMULA"@ && code_of(parts[4]) != -1 {
        Some(
            CellMeta {
                formula: code_of(parts[4]),
                parent1: parent_key(sheet, parts[5]),
                parent2: if parts.len() > 6 {
                    parent_key(sheet, parts[6])
                } else {
                    -1i32
                },
            },
        )
    } else {
        None
    }
}

/// The value a `CELL` line gives its cell, if it reads.
pub open spec fn line_value(parts: Seq<Seq<char>>) -> Option<CellValue> {
    if parts[2] == "ERR"@ {
        Some(CellValue::Error)
    } else {
        match parse_i32_spec(parts[2]) {
            Some(v) => Some(CellValue::Integer(v)),
            None => None,
        }
    }
}

/// A read formula whose dependencies are recorded: every operand it reads names a cell of
/// the sheet, and a range runs from its top-left to its bottom-right corner.
pub open spec fn loadable(sheet: &Spreadsheet, x: i32, m: CellMeta) -> bool {
    let rem = formula_kind(m.formula);
    let ok1 = key_ok(sheet, m.parent1);
    let ok2 = key_ok(sheet, m.parent2);
    &&& m.formula != -1
    &&& key_ok(sheet, x)
    &&& (rem == 0 ==> ok1 && ok2)
    &&& (rem == 2 ==> ok1)
    &&& (rem == 3 ==> ok2)
    &&& (rem != 0 && rem != 2 && rem != 3 ==> 5 <= rem <= 9 && ok1 && ok2 && range_ordered(
        sheet,
        m.parent1,
        m.parent2,
    ))
}

/// What reading one line does: a `CELL,ref,value` line of a cell of the sheet with a value
/// that reads sets the cell, and with `,FORMULA,code,operand,operand` after it gives the
/// cell that formula too, recording its dependencies when they can be followed. Any other
/// line changes nothing.
pub open spec fn line_loaded(old: &Spreadsheet, new: &Spreadsheet, line: Seq<char>) -> bool {
    let parts = split_commas(line);
    if parts[0] == "CELL"@ && parts.len() >= 3 && cell_ref_spec(parts[1], old.rows as int, old.cols as int) is Some
        && line_value(parts) is Some {
        let (r, c) = cell_ref_spec(parts[1], old.rows as int, old.cols as int)->0;
        let x = old.key_of(r as int, c as int) as i32;
        let v = line_value(parts)->0;
        &&& new.grid@ == old.grid@.update(x as int, v)
        &&& match line_formula(old, parts) {
            Some(m) => relinked(old, new, x, Some(m), loadable(old, x, m)),
            None => *new == (Spreadsheet { grid: new.grid, ..*old }),
        }
    } else {
        *new == *old
    }
}

/// `new` is `old` with every cell 0, no formulas and no dependencies.
pub open spec fn cleared(old: &Spreadsheet, new: &Spreadsheet) -> bool {
    &&& new.grid@.len() == old.grid@.len()
    &&& forall|k: int| 0 <= k < new.grid@.len() ==> #[trigger] new.grid@[k] == CellValue::Integer(0)
    &&& new.cell_meta@ == Map::<i32, CellMeta>::empty()
    &&& new.children@ == Map::<i32, std::collections::HashSet<i32>>::empty()
    &&& new.range_children@ == Seq::<crate::spreadsheet::RangeChild>::empty()
    &&& *new == (Spreadsheet {
        grid: new.grid,
        children: new.children,
        range_children: new.range_children,
        cell_meta: new.cell_meta,
        ..*old
    })
}

/// A split line has at least one piece.
pub proof fn lemma_split_commas_len(s: Seq<char>)
    ensures
        split_commas(s).len() >= 1,
    decreases s.len(),
{
    let i = find_from(s, ',', 0);
    if i != -1 {
        lemma_find_from_range(s, ',', 0);
        lemma_split_commas_len(s.subrange(i + 1, s.len() as int));
    }
}

/// The key of the cell a written operand names, or -1.
fn operand_key(sheet: &Spreadsheet, part: &Vec<char>) -> (k: i32)
    requires
        sheet.dims_ok(),
        sheet.grid@.len() == sheet.rows * sheet.cols,
    ensures
        k == parent_key(sheet, part@),
        k == -1 || key_ok(sheet, k),
{
    let n = part.len();
    proof {
        assert(part@.subrange(0, n as int) =~= part@);
    }
    match parse_cell_ref_chars(sheet, part, 0, n) {
        Ok((r, c)) => {
            proof {
                lemma_cell_key(sheet, r as int, c as int);
            }
            sheet.get_key(r, c)
        },
        Err(_) => -1,
    }
}

/// The formula code written in `part`, as [`code_of`] reads it.
fn code_value(part: &Vec<char>) -> (c: i16)
    ensures
        c == code_of(part@),
{
    let n = part.len();
    proof {
        assert(part@.subrange(0, n as int) =~= part@);
    }
    match parse_i32_chars(part, 0, n) {
        Some(v) => if -32768 <= v && v <= 32767 {
            v as i16
        } else {
            -1
        },
        None => -1,
    }
}

/// The formula the pieces of a `CELL` line give, as [`line_formula`] says.
fn read_formula(sheet: &Spreadsheet, parts: &Vec<Vec<char>>) -> (r: Option<CellMeta>)
    requires
        sheet.dims_ok(),
        sheet.grid@.len() == sheet.rows * sheet.cols,
    ensures
        r == line_formula(sheet, views(parts@)),
        r matches Some(m) ==> (m.parent1 == -1 || key_ok(sheet, m.parent1)) && (m.parent2 == -1 || key_ok(
            sheet,
            m.parent2,
        )),
{
    proof {
        reveal_strlit("FORMULA");
    }
    let ghost ps = views(parts@);
    if parts.len() >= 6 && text_is(&parts[3], "FORMULA") {
        let code = code_value(&parts[4]);
        if code != -1 {
            let p1 = operand_key(sheet, &parts[5]);
            let p2 = if parts.len() > 6 {
                operand_key(sheet, &parts[6])
            } else {
                -1
            };
            proof {
                assert(ps[3] == parts@[3]@ && ps[4] == parts@[4]@ && ps[5] == parts@[5]@);
                if parts.len() > 6 {
                    assert(ps[6] == parts@[6]@);
                }
            }
            return Some(CellMeta { formula: code, parent1: p1, parent2: p2 });
        }
        proof {
            assert(ps[4] == parts@[4]@);
        }
    }
    proof {
        if parts.len() >= 6 {
            assert(ps[3] == parts@[3]@);
        }
    }
    None
}

/// A formula read from a line whose operands name cells is loadable as its definition
/// says: it can be recorded and re-evaluated.
proof fn lemma_loadable(sheet: &Spreadsheet, x: i32, m: CellMeta)
    requires
        sheet.dims_ok(),
        sheet.grid@.len() == sheet.rows * sheet.cols,
        loadable(sheet, x, m),
    ensures
        recordable(m),
        meta_readable(sheet, x, m),
{
    let rem = formula_kind(m.formula);
    if rem != 0 && rem != 2 && rem != 3 {
        let p1 = m.parent1;
        let p2 = m.parent2;
        crate::spreadsheet::lemma_key_split(p1 as int, sheet.rows as int, sheet.cols as int);
        crate::spreadsheet::lemma_key_split(p2 as int, sheet.rows as int, sheet.cols as int);
        let (sr, er, sc, ec) = key_rect(sheet, p1, p2);
        assert(0 <= sr <= er < sheet.rows);
        assert(0 <= sc <= ec < sheet.cols);
        assert forall|rr: int, cc: int| sr <= rr <= er && sc <= cc <= ec implies #[trigger] sheet.in_grid(rr, cc) by {
            lemma_cell_key(sheet, rr, cc);
        }
        assert(range_ok(sheet, p1, p2));
        assert(1 <= (er - sr + 1) * (ec - sc + 1) <= 999 * 18278) by (nonlinear_arith)
            requires
                0 <= sr <= er < 999,
                0 <= sc <= ec < 18278,
        ;
        assert(count_ok(sheet, p1, p2));
    }
}

/// Whether the read formula `m` of the cell `x` is [`loadable`].
fn is_loadable(sheet: &Spreadsheet, x: i32, m: CellMeta) -> (b: bool)
    requires
        sheet.dims_ok(),
        sheet.grid@.len() == sheet.rows * sheet.cols,
    ensures
        b == loadable(sheet, x, m),
{
    let n = sheet.grid.len();
    if m.formula == -1 || x < 0 || x as usize >= n {
        return false;
    }
    let ok1 = m.parent1 >= 0 && (m.parent1 as usize) < n;
    let ok2 = m.parent2 >= 0 && (m.parent2 as usize) < n;
    let rem = rem10(m.formula);
    if rem == 0 {
        ok1 && ok2
    } else if rem == 2 {
        ok1
    } else if rem == 3 {
        ok2
    } else if 5 <= rem && rem <= 9 && ok1 && ok2 {
        let (r1, c1) = sheet.get_row_col(m.parent1);
        let (r2, c2) = sheet.get_row_col(m.parent2);
        r1 <= r2 && c1 <= c2
    } else {
        false
    }
}

/// Reads one line of the text form into the sheet, as [`line_loaded`] says.
pub fn load_line(sheet: &mut Spreadsheet, line: &Vec<char>)
    requires
        sheet_ok(old(sheet)),
    ensures
        sheet_ok(final(sheet)),
        line_loaded(old(sheet), final(sheet), line@),
{
    let parts = split_at_commas(line);
    let ghost ps = split_commas(line@);
    proof {
        lemma_split_commas_len(line@);
        reveal_strlit("CELL");
        reveal_strlit("ERR");
        assert(ps[0] == parts@[0]@);
    }
    if !text_is(&parts[0], "CELL") || parts.len() < 3 {
        return;
    }
    proof {
        assert(ps[1] == parts@[1]@ && ps[2] == parts@[2]@);
    }
    let n1 = parts[1].len();
    proof {
        assert(parts@[1]@.subrange(0, n1 as int) =~= parts@[1]@);
    }
    let (row, col) = match parse_cell_ref_chars(sheet, &parts[1], 0, n1) {
        Ok(p) => p,
        Err(_) => {
            return;
        },
    };
    let value = if text_is(&parts[2], "ERR") {
        CellValue::Error
    } else {
        let n2 = parts[2].len();
        proof {
            assert(parts@[2]@.subrange(0, n2 as int) =~= parts@[2]@);
        }
        match parse_i32_chars(&parts[2], 0, n2) {
            Some(v) => CellValue::Integer(v),
            None => {
                return;
            },
        }
    };
    proof {
        lemma_cell_key(sheet, row as int, col as int);
    }
    let x = sheet.get_key(row, col);
    match read_formula(sheet, &parts) {
        Some(m) => {
            let linked = is_loadable(sheet, x, m);
            proof {
                if linked {
                    lemma_loadable(sheet, x, m);
                }
            }
            assign_formula(sheet, row, col, m, linked, value);
        },
        None => {
            *sheet.get_mut_cell(row, col) = value;
            proof {
                lemma_deps_ok_grid(old(sheet), sheet);
            }
        },
    }
}

/// Every cell is 0 and no cell has a formula or recorded dependencies.
pub fn clear_sheet(sheet: &mut Spreadsheet)
    requires
        sheet_ok(old(sheet)),
    ensures
        sheet_ok(final(sheet)),
        cleared(old(sheet), final(sheet)),
{
    let n = sheet.grid.len();
    let mut g: Vec<CellValue> = Vec::new();
    let mut i: usize = 0;
    while i < n
        invariant
            0 <= i <= n,
            g@.len() == i,
            forall|k: int| 0 <= k < i ==> #[trigger] g@[k] == CellValue::Integer(0),
        decreases n - i,
    {
        g.push(CellValue::Integer(0));
        i += 1;
    }
    sheet.grid = g;
    sheet.children = HashMap::new();
    sheet.range_children = Vec::new();
    sheet.cell_meta = HashMap::new();
    proof {
        assert forall|p: i32, c: i32| !#[trigger] edge(sheet, p, c) by {
            assert(sheet.children_of(p) == Set::<i32>::empty());
        }
    }
}

/// A line without the carriage return that ends it, if any.
pub open spec fn drop_cr(l: Seq<char>) -> Seq<char> {
    if l.len() > 0 && l.last() == '\r' {
        l.drop_last()
    } else {
        l
    }
}

/// The lines of a text as `BufRead::lines` gives them: split at each `\n`, a `\r` before
/// it dropped, and no line after a final `\n`.
pub open spec fn text_lines(s: Seq<char>) -> Seq<Seq<char>>
    decreases s.len(),
{
    if s.len() == 0 {
        Seq::empty()
    } else {
        let i = find_from(s, '\n', 0);
        if i == -1 {
            seq![s]
        } else {
            proof {
                lemma_find_from_range(s, '\n', 0);
            }
            seq![drop_cr(s.subrange(0, i))] + text_lines(s.subrange(i + 1, s.len() as int))
        }
    }
}

/// The lines of `t`, as [`text_lines`] says.
fn split_lines(t: &Vec<char>) -> (lines: Vec<Vec<char>>)
    ensures
        views(lines@) == text_lines(t@),
{
    let mut lines: Vec<Vec<char>> = Vec::new();
    let mut start: usize = 0;
    let mut i: usize = 0;
    let ghost mut acc: Seq<Seq<char>> = Seq::empty();
    proof {
        assert(t@.subrange(0, t@.len() as int) =~= t@);
        assert(acc + text_lines(t@) =~= text_lines(t@));
    }
    while i < t.len()
        invariant
            0 <= start <= i <= t.len(),
            forall|k: int| start <= k < i ==> t@[k] != '\n',
            acc.len() == lines@.len(),
            forall|j: int| 0 <= j < lines@.len() ==> #[trigger] lines@[j]@ == acc[j],
            text_lines(t@) == acc + text_lines(t@.subrange(start as int, t@.len() as int)),
        decreases t.len() - i,
    {
        if t[i] == '\n' {
            let ghost u = t@.subrange(start as int, t@.len() as int);
            let end = if i > start && t[i - 1] == '\r' {
                i - 1
            } else {
                i
            };
            proof {
                assert forall|k: int| 0 <= k < i - start implies u[k] != '\n' by {
                    assert(u[k] == t@[start + k]);
                }
                assert(u[i - start] == '\n');
                lemma_find_from(u, '\n', 0, i - start);
                assert(u.subrange(0, i - start) =~= t@.subrange(start as int, i as int));
                assert(drop_cr(u.subrange(0, i - start)) =~= t@.subrange(start as int, end as int));
                assert(u.subrange(i - start + 1, u.len() as int) =~= t@.subrange(i + 1, t@.len() as int));
                assert(text_lines(u) == seq![drop_cr(u.subrange(0, i - start))] + text_lines(
                    u.subrange(i - start + 1, u.len() as int),
                ));
            }
            let piece = sub_chars(t, start, end);
            proof {
                let rest = text_lines(t@.subrange(i + 1, t@.len() as int));
                assert(acc + (seq![piece@] + rest) =~= acc.push(piece@) + rest);
                acc = acc.push(piece@);
            }
            lines.push(piece);
            start = i + 1;
        }
        i += 1;
    }
    let ghost u = t@.subrange(start as int, t@.len() as int);
    if start < t.len() {
        proof {
            assert forall|k: int| 0 <= k < u.len() implies u[k] != '\n' by {
                assert(u[k] == t@[start + k]);
            }
            lemma_find_from(u, '\n', 0, u.len() as int);
            assert(text_lines(u) == seq![u]);
        }
        let piece = sub_chars(t, start, t.len());
        proof {
            assert(acc + seq![piece@] =~= acc.push(piece@));
            acc = acc.push(piece@);
        }
        lines.push(piece);
    } else {
        proof {
            assert(acc + text_lines(u) =~= acc);
        }
    }
    proof {
        assert(views(lines@) =~= acc);
    }
    lines
}

/// The states a load goes through: the sheet cleared, then each line read in turn.
pub open spec fn load_steps(old: &Spreadsheet, new: &Spreadsheet, lines: Seq<Seq<char>>, states: Seq<Spreadsheet>) -> bool {
    &&& states.len() == lines.len() + 1
    &&& cleared(old, &states[0])
    &&& forall|j: int| 0 <= j < lines.len() ==> line_loaded(&states[j], &states[j + 1], #[trigger] lines[j])
    &&& states[lines.len() as int] == *new
}

/// `new` is `old` cleared, then each of `lines` read into it in turn.
pub open spec fn loaded(old: &Spreadsheet, new: &Spreadsheet, lines: Seq<Seq<char>>) -> bool {
    exists|states: Seq<Spreadsheet>| #[trigger] load_steps(old, new, lines, states)
}

/// Replaces the contents of the sheet with those the text form `text` gives: the sheet is
/// cleared, then each line is read in turn, as [`line_loaded`] says. Lines that do not
/// read are passed over.
pub fn load_spreadsheet(sheet: &mut Spreadsheet, text: &str) -> (st: CommandStatus)
    requires
        sheet_ok(old(sheet)),
    ensures
        st == CommandStatus::CmdOk,
        sheet_ok(final(sheet)),
        loaded(old(sheet), final(sheet), text_lines(text@)),
{
    let t = chars_of(text);
    let lines = split_lines(&t);
    let ghost ls = text_lines(text@);
    clear_sheet(sheet);
    let ghost mut states: Seq<Spreadsheet> = seq![*sheet];
    let mut i: usize = 0;
    while i < lines.len()
        invariant
            0 <= i <= lines@.len(),
            views(lines@) == ls,
            sheet_ok(sheet),
            states.len() == i + 1,
            cleared(old(sheet), &states[0]),
            forall|j: int| 0 <= j < i ==> line_loaded(&states[j], &states[j + 1], #[trigger] ls[j]),
            states[i as int] == *sheet,
        decreases lines@.len() - i,
    {
        let ghost before = *sheet;
        load_line(sheet, &lines[i]);
        proof {
            assert(ls[i as int] == lines@[i as int]@);
            states = states.push(*sheet);
            assert(states[i as int] == before);
        }
        i += 1;
    }
    proof {
        assert(load_steps(old(sheet), sheet, ls, states));
    }
    CommandStatus::CmdOk
}

} // verus!
