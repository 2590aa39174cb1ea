//! Reading the text form of a sheet back.
use vstd::prelude::*;
use crate::text::{all_digits, digit_char, digit_val, digits_value, int_text, is_digit, nat_text, parse_i32_spec, parse_int_spec};
use crate::formula::{find_from, lemma_find_from};
use crate::save_load::{
    cell_line, cell_text, cells_text, code_of, drop_cr, formula_tail, has_line, sheet_text, line_formula, line_loaded, load_steps, loaded, key_ref, line_value, parent_key, parent_text, ref_text, split_commas, text_lines,
    value_text,
};
use crate::spreadsheet::CellMeta;
use crate::evaluator::{relinked, relinked_children, lemma_relink_edges};
use crate::graph::{direct_parents, edge, formula_kind, range_edge, reads_range};
use crate::reevaluate_topo::reads;
use crate::save_load::loadable;
use crate::cell::CellValue;
use crate::spreadsheet::Spreadsheet;
use crate::cell::{cell_ref_spec, lemma_upper_prefix, upper_prefix_len};
use crate::spreadsheet::column_name_spec;
use crate::text::{all_upper, col_letters, is_upper, lemma_col_letters_len, lemma_col_letters_roundtrip, letters_value};

verus! {

/// The decimal text of a natural number is digits that read back as the number.
pub proof fn lemma_nat_text(n: nat)
    ensures
        nat_text(n).len() >= 1,
        all_digits(nat_text(n)),
        digits_value(nat_text(n)) == n,
    decreases n,
{
    if n < 10 {
        let s = nat_text(n);
        assert(s == seq![digit_char(n as int)]);
        assert(s.drop_last() =~= Seq::<char>::empty());
        assert(digit_val(digit_char(n as int)) == n);
        assert(digits_value(s) == digits_value(s.drop_last()) * 10 + digit_val(s.last()));
    } else {
        lemma_nat_text((n / 10) as nat);
        let s = nat_text(n);
        let d = (n % 10) as int;
        assert(s.drop_last() == nat_text((n / 10) as nat));
        assert(digit_val(digit_char(d)) == d);
        assert(s.last() == digit_char(d));
        assert(digits_value(s) == digits_value(s.drop_last()) * 10 + digit_val(s.last()));
        assert((n / 10) * 10 + n % 10 == n);
        assert forall|i: int| 0 <= i < s.len() implies is_digit(#[trigger] s[i]) by {
            if i < s.len() - 1 {
                assert(s[i] == s.drop_last()[i]);
            }
        }
    }
}

/// `find_from` gives the first `ch` at or after `i`, or -1 when there is none.
pub proof fn lemma_find_first(s: Seq<char>, ch: char, i: int)
    requires
        0 <= i <= s.len(),
    ensures
        find_from(s, ch, i) == -1 ==> forall|k: int| i <= k < s.len() ==> s[k] != ch,
        find_from(s, ch, i) != -1 ==> i <= find_from(s, ch, i) < s.len() && s[find_from(s, ch, i)] == ch
            && forall|k: int| i <= k < find_from(s, ch, i) ==> s[k] != ch,
    decreases s.len() - i,
{
    if i < s.len() && s[i] != ch {
        lemma_find_first(s, ch, i + 1);
    }
}

/// No comma, line feed or carriage return in `s`.
pub open spec fn plain(s: Seq<char>) -> bool {
    forall|i: int| 0 <= i < s.len() ==> #[trigger] s[i] != ',' && s[i] != '\n' && s[i] != '\r'
}

/// A piece without commas is split into itself.
pub proof fn lemma_split_plain(a: Seq<char>)
    requires
        plain(a),
    ensures
        split_commas(a) == seq![a],
{
    lemma_find_from(a, ',', 0, a.len() as int);
}

/// A comma after a piece without commas splits the piece off.
pub proof fn lemma_split_comma(a: Seq<char>, b: Seq<char>)
    requires
        plain(a),
    ensures
        split_commas(a + seq![','] + b) == seq![a] + split_commas(b),
{
    let s = a + seq![','] + b;
    assert forall|k: int| 0 <= k < a.len() implies s[k] != ',' by {
        assert(s[k] == a[k]);
    }
    lemma_find_from(s, ',', 0, a.len() as int);
    assert(s.subrange(0, a.len() as int) =~= a);
    assert(s.subrange(a.len() as int + 1, s.len() as int) =~= b);
}

/// The lines of text that ends a line (or is empty) followed by more text are the lines of
/// each.
pub proof fn lemma_lines_append(a: Seq<char>, b: Seq<char>)
    requires
        a.len() == 0 || a.last() == '\n',
    ensures
        text_lines(a + b) == text_lines(a) + text_lines(b),
    decreases a.len(),
{
    if a.len() == 0 {
        assert(a + b =~= b);
        assert(text_lines(a) + text_lines(b) =~= text_lines(b));
    } else {
        let s = a + b;
        lemma_find_first(a, '\n', 0);
        if find_from(a, '\n', 0) == -1 {
            assert(a[a.len() - 1] != '\n');
        }
        let j = find_from(a, '\n', 0);
        assert forall|k: int| 0 <= k < j implies s[k] != '\n' by {
            assert(s[k] == a[k]);
        }
        assert(s[j] == a[j]);
        lemma_find_from(s, '\n', 0, j);
        lemma_find_from(a, '\n', 0, j);
        let a2 = a.subrange(j + 1, a.len() as int);
        assert(s.subrange(0, j) =~= a.subrange(0, j));
        assert(s.subrange(j + 1, s.len() as int) =~= a2 + b);
        if a2.len() > 0 {
            assert(a2.last() == a.last());
        }
        lemma_lines_append(a2, b);
        assert(text_lines(s) == seq![drop_cr(a.subrange(0, j))] + text_lines(a2 + b));
        assert(text_lines(a) == seq![drop_cr(a.subrange(0, j))] + text_lines(a2));
        assert(text_lines(s) =~= text_lines(a) + text_lines(b));
    }
}

/// No line feed or carriage return in `s`.
pub open spec fn no_breaks(s: Seq<char>) -> bool {
    forall|i: int| 0 <= i < s.len() ==> #[trigger] s[i] != '\n' && s[i] != '\r'
}

/// Text without line breaks, joined, has none.
pub proof fn lemma_no_breaks_add(a: Seq<char>, b: Seq<char>)
    requires
        no_breaks(a),
        no_breaks(b),
    ensures
        no_breaks(a + b),
{
    assert forall|i: int| 0 <= i < (a + b).len() implies #[trigger] (a + b)[i] != '\n' && (a + b)[i] != '\r' by {
        if i < a.len() {
            assert((a + b)[i] == a[i]);
        } else {
            assert((a + b)[i] == b[i - a.len()]);
        }
    }
}

/// A line without line breaks, ended by a line feed, is one line.
pub proof fn lemma_lines_one(l: Seq<char>)
    requires
        no_breaks(l),
    ensures
        text_lines(l + seq!['\n']) == seq![l],
{
    let s = l + seq!['\n'];
    assert forall|k: int| 0 <= k < l.len() implies s[k] != '\n' by {
        assert(s[k] == l[k]);
    }
    lemma_find_from(s, '\n', 0, l.len() as int);
    assert(s.subrange(0, l.len() as int) =~= l);
    assert(s.subrange(l.len() as int + 1, s.len() as int) =~= Seq::<char>::empty());
    if l.len() > 0 {
        assert(l.last() != '\r');
    }
    assert(drop_cr(l) == l);
    assert(text_lines(Seq::<char>::empty()) == Seq::<Seq<char>>::empty());
    assert(text_lines(s) == seq![drop_cr(s.subrange(0, l.len() as int))] + text_lines(
        s.subrange(l.len() as int + 1, s.len() as int),
    ));
    assert(text_lines(s) =~= seq![l]);
}

/// The text of a number reads back as the number, and has no comma or line break.
pub proof fn lemma_int_text(v: int)
    requires
        i32::MIN <= v <= i32::MAX,
    ensures
        parse_i32_spec(int_text(v)) == Some(v as i32),
        plain(int_text(v)),
        int_text(v).len() >= 1,
{
    let n: nat = if v < 0 {
        (-v) as nat
    } else {
        v as nat
    };
    lemma_nat_text(n);
    let t = nat_text(n);
    assert(forall|i: int| 0 <= i < t.len() ==> is_digit(#[trigger] t[i]));
    if v < 0 {
        let s = int_text(v);
        assert(s == seq!['-'] + t);
        assert(s.drop_first() =~= t);
        assert forall|i: int| 0 <= i < s.len() implies #[trigger] s[i] != ',' && s[i] != '\n' && s[i] != '\r' by {
            if i > 0 {
                assert(s[i] == t[i - 1]);
                assert(is_digit(t[i - 1]));
            }
        }
    } else {
        assert(is_digit(t[0]));
        assert(parse_int_spec(t) == Some(v));
    }
}

/// The reference written for a cell of the sheet reads back as that cell, and has no
/// comma or line break.
pub proof fn lemma_ref_text(r: int, c: int, rows: int, cols: int)
    requires
        0 <= r < rows <= 999,
        0 <= c < cols <= 18278,
    ensures
        cell_ref_spec(ref_text(r, c), rows, cols) == Some((r as i16, c as i16)),
        plain(ref_text(r, c)),
{
    let l = col_letters((c + 1) as nat);
    let d = nat_text((r + 1) as nat);
    lemma_col_letters_roundtrip((c + 1) as nat);
    lemma_col_letters_len((c + 1) as nat);
    lemma_nat_text((r + 1) as nat);
    assert(column_name_spec(c) == l);
    assert(int_text(r + 1) == d);
    let s = ref_text(r, c);
    assert(s == l + d);
    let k = l.len() as int;
    assert forall|j: int| 0 <= j < k implies is_upper(#[trigger] s[j]) by {
        assert(s[j] == l[j]);
    }
    assert(s[k] == d[0]);
    assert(is_digit(d[0]));
    lemma_upper_prefix(s, k);
    assert(upper_prefix_len(s) == k);
    assert(s.subrange(k, s.len() as int) =~= d);
    assert(s.subrange(0, k) =~= l);
    assert forall|i: int| 0 <= i < s.len() implies #[trigger] s[i] != ',' && s[i] != '\n' && s[i] != '\r' by {
        if i < k {
            assert(s[i] == l[i]);
            assert(is_upper(l[i]));
        } else {
            assert(s[i] == d[i - k]);
            assert(is_digit(d[i - k]));
        }
    }
}

/// The text of any number has no comma or line break.
pub proof fn lemma_int_text_plain(v: int)
    ensures
        plain(int_text(v)),
        int_text(v).len() >= 1,
{
    let n: nat = if v < 0 {
        (-v) as nat
    } else {
        v as nat
    };
    lemma_nat_text(n);
    let t = nat_text(n);
    let s = int_text(v);
    assert forall|i: int| 0 <= i < s.len() implies #[trigger] s[i] != ',' && s[i] != '\n' && s[i] != '\r' by {
        if v < 0 {
            if i > 0 {
                assert(s[i] == t[i - 1]);
                assert(is_digit(t[i - 1]));
            }
        } else {
            assert(is_digit(t[i]));
        }
    }
}

/// The reference written for any row and column has no comma or line break.
pub proof fn lemma_ref_text_plain(r: int, c: int)
    ensures
        plain(ref_text(r, c)),
{
    lemma_int_text_plain(r + 1);
    let l = column_name_spec(c);
    if c >= 0 {
        lemma_col_letters_roundtrip((c + 1) as nat);
    }
    assert forall|i: int| 0 <= i < l.len() implies #[trigger] l[i] != ',' && l[i] != '\n' && l[i] != '\r' by {
        if c >= 0 {
            assert(is_upper(l[i]));
        }
    }
    let s = ref_text(r, c);
    let t = int_text(r + 1);
    assert forall|i: int| 0 <= i < s.len() implies #[trigger] s[i] != ',' && s[i] != '\n' && s[i] != '\r' by {
        if i < l.len() {
            assert(s[i] == l[i]);
        } else {
            assert(s[i] == t[i - l.len()]);
        }
    }
}

/// Plain text has no line breaks.
pub proof fn lemma_plain_no_breaks(s: Seq<char>)
    requires
        plain(s),
    ensures
        no_breaks(s),
{
    assert forall|i: int| 0 <= i < s.len() implies #[trigger] s[i] != '\n' && s[i] != '\r' by {
        assert(s[i] != ',');
    }
}

/// A written value has no comma or line break, and the value read from a line whose third
/// piece it is, is the value.
pub proof fn lemma_value_text(v: CellValue, parts: Seq<Seq<char>>)
    requires
        parts.len() >= 3,
        parts[2] == value_text(v),
    ensures
        plain(value_text(v)),
        line_value(parts) == Some(v),
{
    reveal_strlit("ERR");
    match v {
        CellValue::Integer(n) => {
            lemma_int_text(n as int);
            let t = int_text(n as int);
            if t == "ERR"@ {
                assert(t[0] == 'E');
                if n < 0 {
                    assert(t[0] == '-');
                } else {
                    lemma_nat_text(n as nat);
                    assert(is_digit(nat_text(n as nat)[0]));
                }
            }
        },
        CellValue::Error => {
            assert(plain("ERR"@));
        },
    }
}

/// The text of an operand has no comma or line break.
pub proof fn lemma_parent_text_plain(sheet: &Spreadsheet, p: i32)
    ensures
        plain(parent_text(sheet, p)),
{
    if p != -1 {
        lemma_ref_text_plain(sheet.row_of(p as int) as int, sheet.col_of(p as int) as int);
    }
}

/// The formula tail of a cell has no line break, and is empty or starts with a comma.
pub proof fn lemma_formula_tail(sheet: &Spreadsheet, k: int)
    ensures
        no_breaks(formula_tail(sheet, k)),
        formula_tail(sheet, k).len() == 0 || (formula_tail(sheet, k).len() >= 1 && formula_tail(sheet, k)[0] == ','),
{
    let m = sheet.cell_meta@[k as i32];
    if sheet.cell_meta@.contains_key(k as i32) && m.formula != -1 {
        reveal_strlit(",FORMULA,");
        let a = ",FORMULA,"@;
        assert(no_breaks(a));
        lemma_int_text_plain(m.formula as int);
        lemma_plain_no_breaks(int_text(m.formula as int));
        lemma_parent_text_plain(sheet, m.parent1);
        lemma_parent_text_plain(sheet, m.parent2);
        lemma_plain_no_breaks(parent_text(sheet, m.parent1));
        lemma_plain_no_breaks(parent_text(sheet, m.parent2));
        assert(no_breaks(seq![',']));
        let t1 = a + int_text(m.formula as int);
        lemma_no_breaks_add(a, int_text(m.formula as int));
        lemma_no_breaks_add(t1, seq![',']);
        let t2 = t1 + seq![','];
        lemma_no_breaks_add(t2, parent_text(sheet, m.parent1));
        let t3 = t2 + parent_text(sheet, m.parent1);
        lemma_no_breaks_add(t3, seq![',']);
        let t4 = t3 + seq![','];
        lemma_no_breaks_add(t4, parent_text(sheet, m.parent2));
        assert(formula_tail(sheet, k) == t4 + parent_text(sheet, m.parent2));
        assert(formula_tail(sheet, k)[0] == a[0]);
    }
}

/// The line of a cell of the sheet has no line break, and its first three pieces are
/// `CELL`, the cell's reference and its value.
pub proof fn lemma_cell_text(sheet: &Spreadsheet, r: int, c: int)
    requires
        sheet.dims_ok(),
        0 <= r < sheet.rows,
        0 <= c < sheet.cols,
    ensures
        no_breaks(cell_text(sheet, r, c)),
        split_commas(cell_text(sheet, r, c)).len() >= 3,
        split_commas(cell_text(sheet, r, c))[0] == "CELL"@,
        split_commas(cell_text(sheet, r, c))[1] == ref_text(r, c),
        split_commas(cell_text(sheet, r, c))[2] == value_text(sheet.grid@[sheet.key_of(r, c)]),
{
    reveal_strlit("CELL,");
    reveal_strlit("CELL");
    let k = sheet.key_of(r, c);
    let v = sheet.grid@[k];
    let rf = ref_text(r, c);
    let vt = value_text(v);
    let tail = formula_tail(sheet, k);
    lemma_ref_text_plain(r, c);
    lemma_value_text(v, seq![Seq::<char>::empty(), Seq::<char>::empty(), vt]);
    lemma_formula_tail(sheet, k);
    let cell = "CELL"@;
    assert(plain(cell));
    let x = rf + seq![','] + (vt + tail);
    assert(cell_text(sheet, r, c) =~= cell + seq![','] + x);
    lemma_split_comma(cell, x);
    lemma_split_comma(rf, vt + tail);
    if tail.len() == 0 {
        assert(vt + tail =~= vt);
        lemma_split_plain(vt);
    } else {
        let t2 = tail.subrange(1, tail.len() as int);
        assert(vt + tail =~= vt + seq![','] + t2);
        lemma_split_comma(vt, t2);
    }
    // no line breaks
    lemma_plain_no_breaks(cell);
    lemma_plain_no_breaks(rf);
    lemma_plain_no_breaks(vt);
    assert(no_breaks(seq![',']));
    lemma_no_breaks_add(cell, seq![',']);
    lemma_no_breaks_add(cell + seq![','], rf);
    lemma_no_breaks_add(cell + seq![','] + rf, seq![',']);
    lemma_no_breaks_add(cell + seq![','] + rf + seq![','], vt);
    lemma_no_breaks_add(cell + seq![','] + rf + seq![','] + vt, tail);
    assert(cell_text(sheet, r, c) =~= cell + seq![','] + rf + seq![','] + vt + tail);
}

/// The lines of the first `n` cells' text.
pub open spec fn cell_lines(sheet: &Spreadsheet, n: int) -> Seq<Seq<char>> {
    text_lines(cells_text(sheet, n))
}

/// The line of the cell with index `i`, row by row, as a one-line sequence, or none.
pub open spec fn line_of_index(sheet: &Spreadsheet, i: int) -> Seq<Seq<char>> {
    let r = i / sheet.cols as int;
    let c = i % sheet.cols as int;
    if has_line(sheet, r, c) {
        seq![cell_text(sheet, r, c)]
    } else {
        Seq::empty()
    }
}

/// The text of the first `n` cells is empty or ends a line; adding a cell adds its line.
pub proof fn lemma_cells_text(sheet: &Spreadsheet, n: int)
    requires
        sheet.dims_ok(),
        0 <= n <= sheet.rows * sheet.cols,
    ensures
        cells_text(sheet, n).len() == 0 || cells_text(sheet, n).last() == '\n',
        n > 0 ==> cell_lines(sheet, n) == cell_lines(sheet, n - 1) + line_of_index(sheet, n - 1),
    decreases n,
{
    if n > 0 {
        lemma_cells_text(sheet, n - 1);
        let r = (n - 1) / sheet.cols as int;
        let c = (n - 1) % sheet.cols as int;
        assert(0 <= r < sheet.rows) by (nonlinear_arith)
            requires
                0 <= n - 1 < sheet.rows * sheet.cols,
                r == (n - 1) / sheet.cols as int,
                sheet.cols >= 1,
        ;
        let a = cells_text(sheet, n - 1);
        let l = cell_line(sheet, r, c);
        assert(cells_text(sheet, n) == a + l);
        lemma_lines_append(a, l);
        if has_line(sheet, r, c) {
            lemma_cell_text(sheet, r, c);
            lemma_lines_one(cell_text(sheet, r, c));
            assert((a + l).last() == '\n');
        } else {
            assert(l =~= Seq::<char>::empty());
            assert(text_lines(l) == Seq::<Seq<char>>::empty());
            assert(a + l =~= a);
        }
    }
}

/// The lines of fewer cells come first in the lines of more.
pub proof fn lemma_cell_lines_prefix(sheet: &Spreadsheet, k: int, m: int)
    requires
        sheet.dims_ok(),
        0 <= k <= m <= sheet.rows * sheet.cols,
    ensures
        cell_lines(sheet, k).len() <= cell_lines(sheet, m).len(),
        cell_lines(sheet, m).subrange(0, cell_lines(sheet, k).len() as int) == cell_lines(sheet, k),
    decreases m - k,
{
    if k < m {
        lemma_cell_lines_prefix(sheet, k, m - 1);
        lemma_cells_text(sheet, m);
        let a = cell_lines(sheet, m - 1);
        let b = cell_lines(sheet, m);
        assert(b == a + line_of_index(sheet, m - 1));
        assert(b.subrange(0, cell_lines(sheet, k).len() as int) =~= a.subrange(0, cell_lines(sheet, k).len() as int));
    } else {
        assert(cell_lines(sheet, m).subrange(0, cell_lines(sheet, m).len() as int) =~= cell_lines(sheet, m));
    }
}

/// The line that opens the text of a sheet.
pub open spec fn dims_text(sheet: &Spreadsheet) -> Seq<char> {
    "DIMS,"@ + int_text(sheet.rows as int) + seq![','] + int_text(sheet.cols as int)
}

/// The lines of the text of a sheet: its `DIMS` line, whose first piece is not `CELL`, then
/// the lines of its cells.
pub proof fn lemma_sheet_lines(sheet: &Spreadsheet)
    requires
        sheet.dims_ok(),
    ensures
        text_lines(sheet_text(sheet)) == seq![dims_text(sheet)] + cell_lines(sheet, sheet.rows * sheet.cols),
        split_commas(dims_text(sheet))[0] != "CELL"@,
{
    reveal_strlit("DIMS,");
    reveal_strlit("DIMS");
    reveal_strlit("CELL");
    let d = dims_text(sheet);
    let head = d + seq!['\n'];
    assert(sheet_text(sheet) =~= head + cells_text(sheet, sheet.rows * sheet.cols));
    lemma_int_text_plain(sheet.rows as int);
    lemma_int_text_plain(sheet.cols as int);
    let x = int_text(sheet.rows as int) + seq![','] + int_text(sheet.cols as int);
    assert(d =~= "DIMS"@ + seq![','] + x);
    assert(plain("DIMS"@));
    lemma_split_comma("DIMS"@, x);
    assert(split_commas(d)[0] == "DIMS"@);
    assert("DIMS"@[0] != "CELL"@[0]);
    let a = "DIMS,"@;
    assert(no_breaks(a));
    lemma_plain_no_breaks(int_text(sheet.rows as int));
    lemma_plain_no_breaks(int_text(sheet.cols as int));
    assert(no_breaks(seq![',']));
    lemma_no_breaks_add(a, int_text(sheet.rows as int));
    lemma_no_breaks_add(a + int_text(sheet.rows as int), seq![',']);
    lemma_no_breaks_add(a + int_text(sheet.rows as int) + seq![','], int_text(sheet.cols as int));
    lemma_lines_one(d);
    assert(head.last() == '\n');
    lemma_lines_append(head, cells_text(sheet, sheet.rows * sheet.cols));
}

/// The grid after the lines of the first `k` cells were read into a cleared sheet: their
/// values, then zeros.
pub open spec fn partial_grid(sheet: &Spreadsheet, k: int) -> Seq<CellValue> {
    Seq::new(sheet.grid@.len(), |i: int| if i < k { sheet.grid@[i] } else { CellValue::Integer(0) })
}

/// Reading the lines of the first `k` cells of `s1` puts their values in place.
proof fn lemma_load_prefix(s1: &Spreadsheet, s2: &Spreadsheet, s3: &Spreadsheet, states: Seq<Spreadsheet>, k: int)
    requires
        s1.wf(),
        s2.rows == s1.rows,
        s2.cols == s1.cols,
        s2.grid@.len() == s1.grid@.len(),
        load_steps(s2, s3, text_lines(sheet_text(s1)), states),
        0 <= k <= s1.rows * s1.cols,
    ensures
        1 + cell_lines(s1, k).len() < states.len(),
        states[1 + cell_lines(s1, k).len() as int].grid@ == partial_grid(s1, k),
        states[1 + cell_lines(s1, k).len() as int].rows == s1.rows,
        states[1 + cell_lines(s1, k).len() as int].cols == s1.cols,
    decreases k,
{
    let n = s1.rows * s1.cols;
    let lines = text_lines(sheet_text(s1));
    lemma_sheet_lines(s1);
    lemma_cell_lines_prefix(s1, k, n);
    assert(lines.len() == 1 + cell_lines(s1, n).len());
    if k == 0 {
        assert(cell_lines(s1, 0) == Seq::<Seq<char>>::empty());
        assert(lines[0] == dims_text(s1));
        assert(line_loaded(&states[0], &states[1], lines[0]));
        assert(states[1] == states[0]);
        assert(states[1].grid@ =~= partial_grid(s1, 0));
    } else {
        lemma_load_prefix(s1, s2, s3, states, k - 1);
        lemma_cells_text(s1, k);
        let t0 = cell_lines(s1, k - 1);
        let j: int = 1 + t0.len() as int;
        let r = (k - 1) / s1.cols as int;
        let c = (k - 1) % s1.cols as int;
        assert(0 <= r < s1.rows && 0 <= c < s1.cols && r * s1.cols + c == k - 1) by (nonlinear_arith)
            requires
                0 <= k - 1 < s1.rows * s1.cols,
                r == (k - 1) / s1.cols as int,
                c == (k - 1) % s1.cols as int,
                s1.cols >= 1,
        ;
        assert(s1.key_of(r, c) == k - 1);
        if has_line(s1, r, c) {
            let ct = cell_text(s1, r, c);
            assert(cell_lines(s1, k) == t0.push(ct));
            assert(cell_lines(s1, n).subrange(0, cell_lines(s1, k).len() as int)[t0.len() as int] == ct);
            assert(lines[j] == ct);
            let old = states[j];
            let new = states[j + 1];
            assert(line_loaded(&states[j], &states[j + 1], lines[j]));
            lemma_cell_text(s1, r, c);
            let parts = split_commas(ct);
            lemma_ref_text(r, c, s1.rows as int, s1.cols as int);
            lemma_value_text(s1.grid@[k - 1], parts);
            assert(old.key_of(r, c) == k - 1);
            assert(parts[0] == "CELL"@);
            assert(cell_ref_spec(parts[1], old.rows as int, old.cols as int) == Some((r as i16, c as i16)));
            assert(line_value(parts) == Some(s1.grid@[k - 1]));
            assert((r as i16) as int == r && (c as i16) as int == c);
            assert(s1.rows * s1.cols <= 999 * 18278) by (nonlinear_arith)
                requires
                    1 <= s1.rows <= 999,
                    1 <= s1.cols <= 18278,
            ;
            assert(0 <= k - 1 < 999 * 18278);
            assert(old.key_of((r as i16) as int, (c as i16) as int) as i32 as int == k - 1);
            assert(new.grid@ == old.grid@.update(k - 1, s1.grid@[k - 1]));
            assert(new.grid@ =~= partial_grid(s1, k));
        } else {
            assert(cell_lines(s1, k) =~= t0);
            assert(s1.grid@[k - 1] == CellValue::Integer(0));
            assert(partial_grid(s1, k) =~= partial_grid(s1, k - 1));
        }
    }
}

/// Loading the text of a sheet into a sheet of the same size gives back the value of every
/// cell.
pub proof fn law_load_restores_values(s1: &Spreadsheet, s2: &Spreadsheet, s3: &Spreadsheet)
    requires
        s1.wf(),
        s2.rows == s1.rows,
        s2.cols == s1.cols,
        s2.grid@.len() == s1.grid@.len(),
        loaded(s2, s3, text_lines(sheet_text(s1))),
    ensures
        s3.grid@ == s1.grid@,
{
    let lines = text_lines(sheet_text(s1));
    let states = choose|states: Seq<Spreadsheet>| #[trigger] load_steps(s2, s3, lines, states);
    let n = s1.rows * s1.cols;
    lemma_load_prefix(s1, s2, s3, states, n);
    lemma_sheet_lines(s1);
    assert(states[lines.len() as int] == *s3);
    assert(partial_grid(s1, n) =~= s1.grid@);
}

/// The formula that reading back the line of the cell with key `k` gives it: its own
/// formula code, with each operand read back from its written reference.
pub open spec fn formula_back(sheet: &Spreadsheet, k: int) -> Option<CellMeta> {
    let m = sheet.cell_meta@[k as i32];
    if sheet.cell_meta@.contains_key(k as i32) && m.formula != -1 {
        Some(
            CellMeta {
                formula: m.formula,
                parent1: parent_key(sheet, parent_text(sheet, m.parent1)),
                parent2: parent_key(sheet, parent_text(sheet, m.parent2)),
            },
        )
    } else {
        None
    }
}

/// An operand that is -1 or a key of the grid reads back as itself.
pub proof fn lemma_parent_back(sheet: &Spreadsheet, p: i32)
    requires
        sheet.dims_ok(),
        p == -1 || 0 <= p < sheet.rows * sheet.cols,
    ensures
        parent_key(sheet, parent_text(sheet, p)) == p,
{
    if p == -1 {
        assert(cell_ref_spec(Seq::<char>::empty(), sheet.rows as int, sheet.cols as int) is None);
    } else {
        crate::spreadsheet::lemma_key_split(p as int, sheet.rows as int, sheet.cols as int);
        let r = sheet.row_of(p as int) as int;
        let c = sheet.col_of(p as int) as int;
        lemma_ref_text(r, c, sheet.rows as int, sheet.cols as int);
        assert(sheet.key_of(r, c) == p);
    }
}

/// The formula read from the line of the cell (r, c), by a sheet of the same size, is the
/// one [`formula_back`] gives.
pub proof fn lemma_cell_formula(sheet: &Spreadsheet, t: &Spreadsheet, r: int, c: int)
    requires
        sheet.dims_ok(),
        0 <= r < sheet.rows,
        0 <= c < sheet.cols,
        t.rows == sheet.rows,
        t.cols == sheet.cols,
    ensures
        line_formula(t, split_commas(cell_text(sheet, r, c))) == formula_back(sheet, sheet.key_of(r, c)),
{
    reveal_strlit("CELL,");
    reveal_strlit("CELL");
    reveal_strlit(",FORMULA,");
    reveal_strlit("FORMULA");
    let k = sheet.key_of(r, c);
    let v = sheet.grid@[k];
    let rf = ref_text(r, c);
    let vt = value_text(v);
    let tail = formula_tail(sheet, k);
    lemma_ref_text_plain(r, c);
    lemma_value_text(v, seq![Seq::<char>::empty(), Seq::<char>::empty(), vt]);
    let cell = "CELL"@;
    assert(plain(cell));
    let x = rf + seq![','] + (vt + tail);
    assert(cell_text(sheet, r, c) =~= cell + seq![','] + x);
    lemma_split_comma(cell, x);
    lemma_split_comma(rf, vt + tail);
    let parts = split_commas(cell_text(sheet, r, c));
    let m = sheet.cell_meta@[k as i32];
    if sheet.cell_meta@.contains_key(k as i32) && m.formula != -1 {
        let f = "FORMULA"@;
        assert(plain(f));
        let ft = int_text(m.formula as int);
        lemma_int_text(m.formula as int);
        let p1 = parent_text(sheet, m.parent1);
        let p2 = parent_text(sheet, m.parent2);
        lemma_parent_text_plain(sheet, m.parent1);
        lemma_parent_text_plain(sheet, m.parent2);
        assert(vt + tail =~= vt + seq![','] + (f + seq![','] + (ft + seq![','] + (p1 + seq![','] + p2))));
        lemma_split_comma(vt, f + seq![','] + (ft + seq![','] + (p1 + seq![','] + p2)));
        lemma_split_comma(f, ft + seq![','] + (p1 + seq![','] + p2));
        lemma_split_comma(ft, p1 + seq![','] + p2);
        lemma_split_comma(p1, p2);
        lemma_split_plain(p2);
        assert(parts =~= seq![cell, rf, vt, f, ft, p1, p2]);
        assert(code_of(ft) == m.formula);
        assert(parent_key(t, p1) == parent_key(sheet, p1));
        assert(parent_key(t, p2) == parent_key(sheet, p2));
    } else {
        assert(vt + tail =~= vt);
        lemma_split_plain(vt);
        assert(parts.len() == 3);
    }
}

/// The formulas of the grid after the lines of the first `k` cells were read into a
/// cleared sheet: those of the first `k` cells read back, and none after.
pub open spec fn partial_meta_ok(s1: &Spreadsheet, st: &Spreadsheet, k: int) -> bool {
    forall|i: int|
        0 <= i < s1.rows * s1.cols ==> {
            &&& #[trigger] st.cell_meta@.contains_key(i as i32) == (i < k && formula_back(s1, i) is Some)
            &&& (i < k && formula_back(s1, i) is Some) ==> st.cell_meta@[i as i32] == formula_back(s1, i)->0
        }
}

/// Reading the lines of the first `k` cells of `s1` puts their formulas in place.
#[verifier::spinoff_prover]
proof fn lemma_load_prefix_meta(s1: &Spreadsheet, s2: &Spreadsheet, s3: &Spreadsheet, states: Seq<Spreadsheet>, k: int)
    requires
        s1.wf(),
        s2.rows == s1.rows,
        s2.cols == s1.cols,
        s2.grid@.len() == s1.grid@.len(),
        load_steps(s2, s3, text_lines(sheet_text(s1)), states),
        0 <= k <= s1.rows * s1.cols,
    ensures
        1 + cell_lines(s1, k).len() < states.len(),
        partial_meta_ok(s1, &states[1 + cell_lines(s1, k).len() as int], k),
        states[1 + cell_lines(s1, k).len() as int].rows == s1.rows,
        states[1 + cell_lines(s1, k).len() as int].cols == s1.cols,
    decreases k,
{
    let n = s1.rows * s1.cols;
    let lines = text_lines(sheet_text(s1));
    lemma_sheet_lines(s1);
    lemma_cell_lines_prefix(s1, k, n);
    assert(lines.len() == 1 + cell_lines(s1, n).len());
    assert(s1.rows * s1.cols <= 999 * 18278) by (nonlinear_arith)
        requires
            1 <= s1.rows <= 999,
            1 <= s1.cols <= 18278,
    ;
    if k == 0 {
        assert(cell_lines(s1, 0) == Seq::<Seq<char>>::empty());
        assert(lines[0] == dims_text(s1));
        assert(line_loaded(&states[0], &states[1], lines[0]));
        assert(states[1] == states[0]);
        assert(states[0].cell_meta@ == Map::<i32, CellMeta>::empty());
        assert(1 + cell_lines(s1, k).len() == 1);
    } else {
        lemma_load_prefix_meta(s1, s2, s3, states, k - 1);
        lemma_cells_text(s1, k);
        let t0 = cell_lines(s1, k - 1);
        let j: int = 1 + t0.len() as int;
        let r = (k - 1) / s1.cols as int;
        let c = (k - 1) % s1.cols as int;
        assert(0 <= r < s1.rows && 0 <= c < s1.cols && r * s1.cols + c == k - 1) by (nonlinear_arith)
            requires
                0 <= k - 1 < s1.rows * s1.cols,
                r == (k - 1) / s1.cols as int,
                c == (k - 1) % s1.cols as int,
                s1.cols >= 1,
        ;
        assert(s1.key_of(r, c) == k - 1);
        let old = states[j];
        if has_line(s1, r, c) {
            let ct = cell_text(s1, r, c);
            assert(cell_lines(s1, k) == t0.push(ct));
            assert(cell_lines(s1, n).subrange(0, cell_lines(s1, k).len() as int)[t0.len() as int] == ct);
            assert(lines[j] == ct);
            let new = states[j + 1];
            assert(line_loaded(&states[j], &states[j + 1], lines[j]));
            lemma_cell_text(s1, r, c);
            let parts = split_commas(ct);
            lemma_ref_text(r, c, s1.rows as int, s1.cols as int);
            lemma_value_text(s1.grid@[k - 1], parts);
            lemma_cell_formula(s1, &old, r, c);
            assert(parts[0] == "CELL"@);
            assert(cell_ref_spec(parts[1], old.rows as int, old.cols as int) == Some((r as i16, c as i16)));
            assert(line_value(parts) == Some(s1.grid@[k - 1]));
            assert((r as i16) as int == r && (c as i16) as int == c);
            assert(old.key_of((r as i16) as int, (c as i16) as int) as i32 as int == k - 1);
            let x = (k - 1) as i32;
            assert(1 + cell_lines(s1, k).len() == j + 1);
            match line_formula(&old, parts) {
                Some(m) => {
                    assert(new.cell_meta@ == old.cell_meta@.insert(x, m));
                },
                None => {
                    assert(new.cell_meta@ == old.cell_meta@);
                },
            }
            assert forall|i: int| 0 <= i < s1.rows * s1.cols implies {
                &&& #[trigger] new.cell_meta@.contains_key(i as i32) == (i < k && formula_back(s1, i) is Some)
                &&& (i < k && formula_back(s1, i) is Some) ==> new.cell_meta@[i as i32] == formula_back(s1, i)->0
            } by {
                assert(old.cell_meta@.contains_key(i as i32) == (i < k - 1 && formula_back(s1, i) is Some));
                if i != k - 1 {
                    assert((i as i32) != x);
                }
            }
        } else {
            assert(cell_lines(s1, k) =~= t0);
            assert(!s1.cell_meta@.contains_key((k - 1) as i32));
            assert(formula_back(s1, k - 1) is None);
            assert(1 + cell_lines(s1, k).len() == j);
            assert forall|i: int| 0 <= i < s1.rows * s1.cols implies {
                &&& #[trigger] old.cell_meta@.contains_key(i as i32) == (i < k && formula_back(s1, i) is Some)
                &&& (i < k && formula_back(s1, i) is Some) ==> old.cell_meta@[i as i32] == formula_back(s1, i)->0
            } by {
                assert(old.cell_meta@.contains_key(i as i32) == (i < k - 1 && formula_back(s1, i) is Some));
            }
        }
    }
}

/// Loading the text of a sheet into a sheet of the same size gives back which cells of
/// the grid have a formula, and the formula of each whose operands are -1 or cells of the
/// grid (a constant operand that names no cell is written as a reference that does not
/// read back).
pub proof fn law_load_restores_formulas(s1: &Spreadsheet, s2: &Spreadsheet, s3: &Spreadsheet)
    requires
        s1.wf(),
        s2.rows == s1.rows,
        s2.cols == s1.cols,
        s2.grid@.len() == s1.grid@.len(),
        loaded(s2, s3, text_lines(sheet_text(s1))),
    ensures
        forall|k: i32|
            0 <= k < s1.grid@.len() ==> (#[trigger] s3.cell_meta@.contains_key(k) <==> s1.cell_meta@.contains_key(k)
                && s1.cell_meta@[k].formula != -1),
        forall|k: i32|
            0 <= k < s1.grid@.len() && #[trigger] s1.cell_meta@.contains_key(k) && s1.cell_meta@[k].formula != -1 && {
                let m = s1.cell_meta@[k];
                &&& m.parent1 == -1 || 0 <= m.parent1 < s1.grid@.len()
                &&& m.parent2 == -1 || 0 <= m.parent2 < s1.grid@.len()
            } ==> s3.cell_meta@[k] == s1.cell_meta@[k],
{
    let lines = text_lines(sheet_text(s1));
    let states = choose|states: Seq<Spreadsheet>| #[trigger] load_steps(s2, s3, lines, states);
    let n = s1.rows * s1.cols;
    lemma_load_prefix_meta(s1, s2, s3, states, n);
    lemma_sheet_lines(s1);
    assert(states[lines.len() as int] == *s3);
    assert forall|k: i32| 0 <= k < s1.grid@.len() implies (#[trigger] s3.cell_meta@.contains_key(k) <==> s1.cell_meta@.contains_key(k)
        && s1.cell_meta@[k].formula != -1) by {
        assert(s3.cell_meta@.contains_key((k as int) as i32) == (formula_back(s1, k as int) is Some));
    }
    assert forall|k: i32|
        0 <= k < s1.grid@.len() && #[trigger] s1.cell_meta@.contains_key(k) && s1.cell_meta@[k].formula != -1 && {
            let m = s1.cell_meta@[k];
            &&& m.parent1 == -1 || 0 <= m.parent1 < s1.grid@.len()
            &&& m.parent2 == -1 || 0 <= m.parent2 < s1.grid@.len()
        } implies s3.cell_meta@[k] == s1.cell_meta@[k] by {
        let m = s1.cell_meta@[k];
        lemma_parent_back(s1, m.parent1);
        lemma_parent_back(s1, m.parent2);
        assert(formula_back(s1, k as int)->0 == m);
        assert(s3.cell_meta@.contains_key((k as int) as i32));
        assert(s3.cell_meta@[(k as int) as i32] == formula_back(s1, k as int)->0);
    }
}

/// A line that gives the cell `x` the formula `m` with its dependencies recorded records
/// every cell `m` reads as read by `x`.
proof fn lemma_line_records(old: &Spreadsheet, new: &Spreadsheet, x: i32, m: CellMeta)
    requires
        relinked(old, new, x, Some(m), true),
        m.formula != -1,
        ({
            let rem = formula_kind(m.formula);
            rem == 0 || rem == 2 || rem == 3 || 5 <= rem <= 9
        }),
    ensures
        forall|p: i32| #[trigger] reads(new, x, p) ==> edge(new, p, x),
{
    assert(new.meta_of(x) == m);
    let rem = formula_kind(m.formula);
    assert forall|p: i32| #[trigger] reads(new, x, p) implies edge(new, p, x) by {
        if rem == 0 || rem == 2 || rem == 3 {
            assert(direct_parents(m).contains(p));
            assert(new.children_of(p) == relinked_children(old.children_of(p), p, x, old.meta_of(x), Some(m), true));
            assert(new.children_of(p).contains(x));
        } else {
            assert(reads_range(m));
            let n = new.range_children@;
            let i = n.len() - 1;
            assert(n[i] == range_entry_of(m, x));
            assert(range_edge(new, p, x));
        }
    }
}

/// The range entry a range formula `m` of the cell `x` records.
pub open spec fn range_entry_of(m: CellMeta, x: i32) -> crate::spreadsheet::RangeChild {
    crate::spreadsheet::RangeChild { start_key: m.parent1, end_key: m.parent2, child_key: x }
}

/// The cell `i` of `s1` has a formula whose text reads back to it (its operands are -1 or
/// cells of the grid) and whose dependencies a load records.
pub open spec fn loads_linked(s1: &Spreadsheet, i: int) -> bool {
    let m = s1.cell_meta@[i as i32];
    &&& s1.cell_meta@.contains_key(i as i32)
    &&& m.formula != -1
    &&& (m.parent1 == -1 || 0 <= m.parent1 < s1.grid@.len())
    &&& (m.parent2 == -1 || 0 <= m.parent2 < s1.grid@.len())
    &&& loadable(s1, i as i32, m)
}

/// Each of the first `k` cells of `s1` whose dependencies a load records is read by `st`
/// as reading every cell its formula reads.
pub open spec fn deps_prefix_ok(s1: &Spreadsheet, st: &Spreadsheet, k: int) -> bool {
    forall|i: int, p: i32|
        0 <= i < k && loads_linked(s1, i) && #[trigger] reads(st, i as i32, p) ==> edge(st, p, i as i32)
}

/// Reading the lines of the first `k` cells of `s1` records the dependencies of their
/// formulas.
#[verifier::spinoff_prover]
#[verifier::rlimit(40)]
proof fn lemma_load_prefix_deps(s1: &Spreadsheet, s2: &Spreadsheet, s3: &Spreadsheet, states: Seq<Spreadsheet>, k: int)
    requires
        s1.wf(),
        s2.rows == s1.rows,
        s2.cols == s1.cols,
        s2.grid@.len() == s1.grid@.len(),
        load_steps(s2, s3, text_lines(sheet_text(s1)), states),
        0 <= k <= s1.rows * s1.cols,
    ensures
        1 + cell_lines(s1, k).len() < states.len(),
        deps_prefix_ok(s1, &states[1 + cell_lines(s1, k).len() as int], k),
    decreases k,
{
    let n = s1.rows * s1.cols;
    let lines = text_lines(sheet_text(s1));
    lemma_sheet_lines(s1);
    lemma_cell_lines_prefix(s1, k, n);
    assert(lines.len() == 1 + cell_lines(s1, n).len());
    assert(s1.rows * s1.cols <= 999 * 18278) by (nonlinear_arith)
        requires
            1 <= s1.rows <= 999,
            1 <= s1.cols <= 18278,
    ;
    if k > 0 {
        lemma_load_prefix_deps(s1, s2, s3, states, k - 1);
        lemma_load_prefix(s1, s2, s3, states, k - 1);
        lemma_cells_text(s1, k);
        let t0 = cell_lines(s1, k - 1);
        let j: int = 1 + t0.len() as int;
        let r = (k - 1) / s1.cols as int;
        let c = (k - 1) % s1.cols as int;
        assert(0 <= r < s1.rows && 0 <= c < s1.cols && r * s1.cols + c == k - 1) by (nonlinear_arith)
            requires
                0 <= k - 1 < s1.rows * s1.cols,
                r == (k - 1) / s1.cols as int,
                c == (k - 1) % s1.cols as int,
                s1.cols >= 1,
        ;
        assert(s1.key_of(r, c) == k - 1);
        let old = states[j];
        assert(old.grid@.len() == s1.grid@.len());
        let x = (k - 1) as i32;
        if has_line(s1, r, c) {
            let ct = cell_text(s1, r, c);
            assert(cell_lines(s1, k) == t0.push(ct));
            assert(cell_lines(s1, n).subrange(0, cell_lines(s1, k).len() as int)[t0.len() as int] == ct);
            assert(lines[j] == ct);
            let new = states[j + 1];
            assert(line_loaded(&states[j], &states[j + 1], lines[j]));
            lemma_cell_text(s1, r, c);
            let parts = split_commas(ct);
            lemma_ref_text(r, c, s1.rows as int, s1.cols as int);
            lemma_value_text(s1.grid@[k - 1], parts);
            lemma_cell_formula(s1, &old, r, c);
            assert(parts[0] == "CELL"@);
            assert(cell_ref_spec(parts[1], old.rows as int, old.cols as int) == Some((r as i16, c as i16)));
            assert(line_value(parts) == Some(s1.grid@[k - 1]));
            assert((r as i16) as int == r && (c as i16) as int == c);
            assert(old.key_of((r as i16) as int, (c as i16) as int) as i32 as int == k - 1);
            assert(1 + cell_lines(s1, k).len() == j + 1);
            match line_formula(&old, parts) {
                Some(m) => {
                    let l = loadable(&old, x, m);
                    assert(relinked(&old, &new, x, Some(m), l));
                    lemma_relink_edges(&old, &new, x, Some(m), l);
                    if loads_linked(s1, k - 1) {
                        let sm = s1.cell_meta@[x];
                        lemma_parent_back(s1, sm.parent1);
                        lemma_parent_back(s1, sm.parent2);
                        assert(m == sm);
                        assert(l == loadable(s1, x, sm));
                        lemma_line_records(&old, &new, x, m);
                    }
                    assert forall|i: int, p: i32|
                        0 <= i < k && loads_linked(s1, i) && #[trigger] reads(&new, i as i32, p) implies edge(&new, p, i as i32) by {
                        if i < k - 1 {
                            assert((i as i32) != x);
                            assert(new.meta_of(i as i32) == old.meta_of(i as i32));
                            assert(reads(&old, i as i32, p));
                        }
                    }
                },
                None => {
                    assert(!loads_linked(s1, k - 1));
                    lemma_same_sheet_links(&old, &new);
                    assert forall|i: int, p: i32|
                        0 <= i < k && loads_linked(s1, i) && #[trigger] reads(&new, i as i32, p) implies edge(&new, p, i as i32) by {
                        assert(reads(&old, i as i32, p));
                    }
                },
            }
        } else {
            assert(cell_lines(s1, k) =~= t0);
            assert(1 + cell_lines(s1, k).len() == j);
            assert(!loads_linked(s1, k - 1));
        }
    }
}

/// A sheet that differs only in its values has the same dependencies.
proof fn lemma_same_sheet_links(a: &Spreadsheet, b: &Spreadsheet)
    requires
        *b == (Spreadsheet { grid: b.grid, ..*a }),
    ensures
        forall|p: i32, c: i32| #[trigger] edge(b, p, c) == edge(a, p, c),
{
    assert forall|p: i32, c: i32| #[trigger] edge(b, p, c) == edge(a, p, c) by {
        assert(b.children_of(p) == a.children_of(p));
        assert forall|i: int| 0 <= i < a.range_children@.len() implies
            a.key_in_range(p as int, (#[trigger] a.range_children@[i]).start_key as int, a.range_children@[i].end_key as int)
            == b.key_in_range(p as int, b.range_children@[i].start_key as int, b.range_children@[i].end_key as int) by {}
    }
}

/// Loading the text of a sheet into a sheet of the same size records, for each formula
/// whose text reads back to it and whose dependencies a load records (its operands are
/// cells of the grid, a range running from its top-left to its bottom-right corner), every
/// cell it reads as read by its cell: a later change of such a cell reaches the formula.
pub proof fn law_load_records_dependencies(s1: &Spreadsheet, s2: &Spreadsheet, s3: &Spreadsheet)
    requires
        s1.wf(),
        s2.rows == s1.rows,
        s2.cols == s1.cols,
        s2.grid@.len() == s1.grid@.len(),
        loaded(s2, s3, text_lines(sheet_text(s1))),
    ensures
        forall|k: i32, p: i32|
            0 <= k < s1.grid@.len() && loads_linked(s1, k as int) && #[trigger] reads(s1, k, p) ==> edge(s3, p, k),
{
    let lines = text_lines(sheet_text(s1));
    let states = choose|states: Seq<Spreadsheet>| #[trigger] load_steps(s2, s3, lines, states);
    let n = s1.rows * s1.cols;
    lemma_load_prefix_deps(s1, s2, s3, states, n);
    lemma_load_prefix(s1, s2, s3, states, n);
    law_load_restores_formulas(s1, s2, s3);
    lemma_sheet_lines(s1);
    assert(states[lines.len() as int] == *s3);
    assert forall|k: i32, p: i32|
        0 <= k < s1.grid@.len() && loads_linked(s1, k as int) && #[trigger] reads(s1, k, p) implies edge(s3, p, k) by {
        assert(s3.cell_meta@.contains_key(k));
        assert(s3.cell_meta@[k] == s1.cell_meta@[k]);
        assert(s3.meta_of(k) == s1.meta_of(k));
        assert(reads(s3, (k as int) as i32, p));
    }
}

/// A key that is not a cell of the grid names no corner of a range of the grid.
proof fn lemma_corner_in_grid(sheet: &Spreadsheet, p1: i32, p2: i32)
    requires
        sheet.dims_ok(),
        sheet.grid@.len() == sheet.rows * sheet.cols,
        crate::formula::range_ok(sheet, p1, p2),
        crate::reevaluate_topo::range_ordered(sheet, p1, p2),
        p1 == -1 || 0 <= p1 < sheet.grid@.len(),
    ensures
        0 <= p1 < sheet.grid@.len(),
{
    if p1 == -1 {
        let r = sheet.row_of(p1 as int) as int;
        let c = sheet.col_of(p1 as int) as int;
        assert(sheet.in_grid(r, c));
        if sheet.cols == 1 {
            assert(1int / 1int == 1) by (nonlinear_arith);
            assert(crate::spreadsheet::tdiv(-1, 1) == -1);
        } else {
            assert(1int / (sheet.cols as int) == 0) by (nonlinear_arith)
                requires
                    sheet.cols >= 2,
            ;
            assert(crate::spreadsheet::tdiv(-1, sheet.cols as int) == 0);
            assert(sheet.cols as int * 0 == 0);
            assert(crate::spreadsheet::tmod(-1, sheet.cols as int) == -1);
            assert(sheet.col_of(-1) == -1);
        }
    }
}

/// The far corner of an ordered range whose near corner is a cell of the grid is not -1.
proof fn lemma_end_corner_in_grid(sheet: &Spreadsheet, p1: i32, p2: i32)
    requires
        sheet.dims_ok(),
        sheet.grid@.len() == sheet.rows * sheet.cols,
        0 <= p1 < sheet.grid@.len(),
        crate::reevaluate_topo::range_ordered(sheet, p1, p2),
        p2 == -1 || 0 <= p2 < sheet.grid@.len(),
    ensures
        0 <= p2 < sheet.grid@.len(),
{
    crate::spreadsheet::lemma_key_split(p1 as int, sheet.rows as int, sheet.cols as int);
    if p2 == -1 {
        if sheet.cols == 1 {
            assert(1int / 1int == 1) by (nonlinear_arith);
            assert(crate::spreadsheet::tdiv(-1, 1) == -1);
        } else {
            assert(1int / (sheet.cols as int) == 0) by (nonlinear_arith)
                requires
                    sheet.cols >= 2,
            ;
            assert(crate::spreadsheet::tdiv(-1, sheet.cols as int) == 0);
            assert(sheet.cols as int * 0 == 0);
            assert(crate::spreadsheet::tmod(-1, sheet.cols as int) == -1);
            assert(sheet.col_of(-1) == -1);
        }
    }
}

/// Loading the text of a sheet into a sheet of the same size records again every
/// dependency the sheet recorded, when every operand of its formulas is -1 or a cell of
/// the grid: a later change of a cell still reaches each formula that read it.
pub proof fn law_load_keeps_dependencies(s1: &Spreadsheet, s2: &Spreadsheet, s3: &Spreadsheet)
    requires
        crate::evaluator::sheet_ok(s1),
        forall|k: i32| #[trigger] s1.cell_meta@.contains_key(k) ==> {
            let m = s1.cell_meta@[k];
            &&& m.parent1 == -1 || 0 <= m.parent1 < s1.grid@.len()
            &&& m.parent2 == -1 || 0 <= m.parent2 < s1.grid@.len()
        },
        s2.rows == s1.rows,
        s2.cols == s1.cols,
        s2.grid@.len() == s1.grid@.len(),
        loaded(s2, s3, text_lines(sheet_text(s1))),
    ensures
        forall|p: i32, k: i32| 0 <= p < s1.grid@.len() && #[trigger] edge(s1, p, k) ==> edge(s3, p, k),
{
    law_load_records_dependencies(s1, s2, s3);
    assert forall|p: i32, k: i32| 0 <= p < s1.grid@.len() && #[trigger] edge(s1, p, k) implies edge(s3, p, k) by {
        crate::evaluator::lemma_edge_reads(s1, p, k);
        crate::evaluator::lemma_edge_reads_kind(s1, p, k);
        assert(crate::reevaluate_topo::reeval_ok(s1, k));
        let m = s1.cell_meta@[k];
        let rem = formula_kind(m.formula);
        if !(rem == 0 || rem == 2 || rem == 3) {
            assert(reads_range(m));
            let i = choose|i: int|
                0 <= i < s1.range_children@.len() && (#[trigger] s1.range_children@[i]).child_key == k
                    && s1.key_in_range(p as int, s1.range_children@[i].start_key as int, s1.range_children@[i].end_key as int);
            assert(crate::reevaluate_topo::range_ordered(s1, m.parent1, m.parent2));
            lemma_corner_in_grid(s1, m.parent1, m.parent2);
            lemma_end_corner_in_grid(s1, m.parent1, m.parent2);
        }
        assert(loadable(s1, k, m));
        assert(loads_linked(s1, (k as int)));
        assert(reads(s1, k, p));
    }
}

} // verus!
