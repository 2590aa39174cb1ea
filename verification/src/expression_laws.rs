//! What the text of values, formulas and commands promises: a shown number reads back as
//! itself and the view labels its rows and columns in order, a formula written out reads
//! back as the same formula, an expression keeps its operands in order, `lock_cell` locks
//! exactly what it names, and yanked or cut cells paste as themselves.
use vstd::prelude::*;
use crate::cell::CellValue;
use crate::command::{CommandOutput, after, command_outcome, lock_outcome, lock_target, unlock_outcome};
use crate::evaluator::{
    Setting, relinked, arithmetic_outcome, all_word_chars, arith_setting, assigned, find_op, formula_setting, has_prefix, history_of, is_op,
    is_word_char, op_code, operand_spec, same_dependencies, set_outcome, sheet_ok,
};
use crate::extensions::{formula_text, is_single, key_name, lemma_first_single, op_char};
use crate::formula::{Range, find_from, range_spec};
use crate::graph::{cycle_from, formula_kind};
use crate::reevaluate_topo::{is_stdev_code, reeval_gives, reeval_value, reevaluated};
use crate::render::{header_cells, pad, row_cells, rows_block, shown};
use crate::cell::cell_ref_spec;
use crate::roundtrip::{lemma_find_first, lemma_int_text, lemma_nat_text, lemma_ref_text};
use crate::save_load::ref_text;
use crate::spreadsheet::{CellMeta, CommandStatus, Spreadsheet, column_name_spec, lemma_key_split, tdiv};
use crate::text::{
    all_digits, col_letters, int_text, is_digit, is_upper, is_ws, lemma_col_letters_len, lemma_col_letters_roundtrip,
    nat_text, parse_i32_spec, parse_int_spec, trim_spec,
};
use crate::vim::{EditorState, VimAction, copied_formula, cursor_assignment, cursor_ref, normal_outcome, paste_outcome};

verus! {

/// `a o b` for an operator character, the left operand first: sums, differences and
/// products wrap around to 32 bits; a quotient is rounded toward zero, and dividing by zero
/// or `i32::MIN` by -1 is an error.
pub open spec fn operator_value(o: char, a: i32, b: i32) -> CellValue {
    if o == '+' {
        CellValue::Integer(vstd::wrapping::i32_specs::wrapping_add(a, b))
    } else if o == '-' {
        CellValue::Integer(vstd::wrapping::i32_specs::wrapping_sub(a, b))
    } else if o == '*' {
        CellValue::Integer(vstd::wrapping::i32_specs::wrapping_mul(a, b))
    } else if b == 0 || (a == i32::MIN && b == -1) {
        CellValue::Error
    } else {
        CellValue::Integer(tdiv(a as int, b as int) as i32)
    }
}

/// A cell reference is at least a letter and a digit, starts with a letter, and holds only
/// upper-case letters and digits.
proof fn lemma_ref_chars(r: int, c: int)
    requires
        0 <= r,
        0 <= c,
    ensures
        ref_text(r, c).len() >= 2,
        is_upper(ref_text(r, c)[0]),
        is_digit(ref_text(r, c).last()),
        forall|i: int| 0 <= i < ref_text(r, c).len() ==> is_upper(#[trigger] ref_text(r, c)[i]) || is_digit(ref_text(r, c)[i]),
{
    let l = col_letters((c + 1) as nat);
    lemma_col_letters_roundtrip((c + 1) as nat);
    lemma_col_letters_len((c + 1) as nat);
    lemma_nat_text((r + 1) as nat);
    let d = nat_text((r + 1) as nat);
    assert(column_name_spec(c) == l);
    assert(int_text(r + 1) == d);
    let s = ref_text(r, c);
    assert(s == l + d);
    assert(l.len() >= 1);
    assert(is_upper(l[0]));
    assert(s.last() == d.last());
    assert forall|i: int| 0 <= i < s.len() implies is_upper(#[trigger] s[i]) || is_digit(s[i]) by {
        if i < l.len() {
            assert(s[i] == l[i]);
        } else {
            assert(s[i] == d[i - l.len()]);
        }
    }
}

/// Text with a character after the first that is not a digit is no number.
proof fn lemma_not_number(s: Seq<char>, j: int)
    requires
        0 <= j < s.len(),
        !is_digit(s[j]),
        j == 0 ==> s[0] != '+' && s[0] != '-',
    ensures
        parse_int_spec(s) is None,
        parse_i32_spec(s) is None,
{
    if s[0] == '+' || s[0] == '-' {
        let d = s.drop_first();
        assert(d[j - 1] == s[j]);
        assert(!all_digits(d));
    } else {
        assert(!all_digits(s));
    }
}

/// `find_op` from `i` passes over characters that are no operator up to `k`.
proof fn lemma_find_op_at(s: Seq<char>, i: int, k: int)
    requires
        0 <= i <= k < s.len(),
        is_op(s[k]),
        forall|j: int| i <= j < k ==> !is_op(#[trigger] s[j]),
    ensures
        find_op(s, i) == k,
    decreases k - i,
{
    if i < k {
        lemma_find_op_at(s, i + 1, k);
    }
}

/// Text without `(` starts with none of the range function names.
proof fn lemma_no_call(e: Seq<char>, p: Seq<char>)
    requires
        p.len() >= 1,
        p.last() == '(',
        forall|i: int| 0 <= i < e.len() ==> #[trigger] e[i] != '(',
    ensures
        !has_prefix(e, p),
{
    if has_prefix(e, p) {
        assert(e.subrange(0, p.len() as int)[p.len() - 1] == e[p.len() - 1]);
    }
}

/// The text a cell holding a number shows reads back as that number, its sign included; a
/// cell holding an error shows `ERR`, which reads as no number.
pub proof fn law_shown_number_reads_back(v: i32)
    ensures
        parse_i32_spec(shown(CellValue::Integer(v))) == Some(v),
        shown(CellValue::Error) == "ERR"@,
        parse_i32_spec(shown(CellValue::Error)) is None,
{
    lemma_int_text(v as int);
    reveal_strlit("ERR");
    lemma_not_number("ERR"@, 0);
}

/// The rows of the view come in order, each on a line of its own that starts with the
/// row's number counted from 1: the line of the `i`-th row shown follows the lines before
/// it, and its label reads back as `sr + i + 1`.
pub proof fn law_row_labels(sheet: &Spreadsheet, sr: int, sc: int, nr: int, nc: int, hl: bool, i: int)
    requires
        0 <= i < nr,
        -1000 <= sr <= 1000,
        nr <= 1000,
    ensures
        rows_block(sheet, sr, sc, i + 1, nc, hl).len() <= rows_block(sheet, sr, sc, nr, nc, hl).len(),
        rows_block(sheet, sr, sc, nr, nc, hl).subrange(0, rows_block(sheet, sr, sc, i + 1, nc, hl).len() as int)
            == rows_block(sheet, sr, sc, i + 1, nc, hl),
        exists|l: Seq<char>|
            parse_i32_spec(l) == Some((sr + i + 1) as i32) && #[trigger] rows_block(sheet, sr, sc, i + 1, nc, hl)
                == rows_block(sheet, sr, sc, i, nc, hl) + pad(l, 4) + seq![' '] + row_cells(sheet, sr + i, sc, nc, hl)
                + seq!['\n'],
    decreases nr,
{
    let l = int_text(sr + i + 1);
    lemma_int_text(sr + i + 1);
    assert(rows_block(sheet, sr, sc, i + 1, nc, hl) == rows_block(sheet, sr, sc, i, nc, hl) + pad(l, 4) + seq![' ']
        + row_cells(sheet, sr + i, sc, nc, hl) + seq!['\n']);
    if i + 1 < nr {
        law_row_labels(sheet, sr, sc, nr - 1, nc, hl, i);
        let a = rows_block(sheet, sr, sc, nr - 1, nc, hl);
        let b = rows_block(sheet, sr, sc, nr, nc, hl);
        let n = rows_block(sheet, sr, sc, i + 1, nc, hl).len() as int;
        assert(b == a + (pad(int_text(sr + nr), 4) + seq![' '] + row_cells(sheet, sr + nr - 1, sc, nc, hl)
            + seq!['\n']));
        assert(n <= a.len());
        assert(b.subrange(0, n) =~= a.subrange(0, n));
    } else {
        assert(rows_block(sheet, sr, sc, nr, nc, hl).subrange(0, rows_block(sheet, sr, sc, nr, nc, hl).len() as int)
            =~= rows_block(sheet, sr, sc, nr, nc, hl));
    }
}

/// The header of the view names the shown columns in order: the `j`-th name shown is the
/// name that references use for column `sc + j`.
pub proof fn law_column_headers(sc: int, nc: int, j: int, rows: int, cols: int)
    requires
        0 <= j < nc,
        0 <= sc,
        1 <= rows <= 999,
        sc + nc <= cols <= 18278,
    ensures
        header_cells(sc, j + 1).len() <= header_cells(sc, nc).len(),
        header_cells(sc, nc).subrange(0, header_cells(sc, j + 1).len() as int) == header_cells(sc, j + 1),
        exists|name: Seq<char>|
            cell_ref_spec(name + seq!['1'], rows, cols) == Some((0i16, (sc + j) as i16)) && #[trigger] header_cells(
                sc,
                j + 1,
            ) == header_cells(sc, j) + pad(name, 8) + seq![' '],
    decreases nc,
{
    lemma_ref_text(0, sc + j, rows, cols);
    assert(int_text(1) =~= seq!['1']) by {
        assert(nat_text(1) == seq![crate::text::digit_char(1)]);
    }
    assert(ref_text(0, sc + j) == column_name_spec(sc + j) + seq!['1']);
    if j + 1 < nc {
        law_column_headers(sc, nc - 1, j, rows, cols);
        let a = header_cells(sc, nc - 1);
        let b = header_cells(sc, nc);
        let n = header_cells(sc, j + 1).len() as int;
        assert(b == a + (pad(column_name_spec(sc + nc - 1), 8) + seq![' ']));
        assert(b.subrange(0, n) =~= a.subrange(0, n));
    } else {
        assert(header_cells(sc, nc).subrange(0, header_cells(sc, nc).len() as int) =~= header_cells(sc, nc));
    }
}

/// The name of a cell that no name is bound to on its own is its reference.
proof fn lemma_key_name_ref(sheet: &Spreadsheet, p: i32)
    requires
        sheet.dims_ok(),
        0 <= p < sheet.rows * sheet.cols,
        unnamed(sheet, p),
    ensures
        0 <= sheet.row_of(p as int) < sheet.rows,
        0 <= sheet.col_of(p as int) < sheet.cols,
        sheet.key_of(sheet.row_of(p as int) as int, sheet.col_of(p as int) as int) == p,
        key_name(sheet, p) == ref_text(sheet.row_of(p as int) as int, sheet.col_of(p as int) as int),
{
    lemma_key_split(p as int, sheet.rows as int, sheet.cols as int);
    let v = sheet.named_ranges.view();
    lemma_first_single(v, sheet.row_of(p as int) as int, sheet.col_of(p as int) as int, 0, v.len() as int);
}

/// An expression without `(` is read as a plain expression.
#[verifier::rlimit(30)]
proof fn lemma_plain_expr(sheet: &Spreadsheet, row: i16, col: i16, e: Seq<char>)
    requires
        e.len() > 0,
        forall|i: int| 0 <= i < e.len() ==> #[trigger] e[i] != '(',
    ensures
        formula_setting(sheet, row, col, e) == arith_setting(sheet, e),
{
    lemma_no_call(e, seq!['A', 'V', 'G', '(']);
    lemma_no_call(e, seq!['M', 'I', 'N', '(']);
    lemma_no_call(e, seq!['M', 'A', 'X', '(']);
    lemma_no_call(e, seq!['S', 'U', 'M', '(']);
    lemma_no_call(e, seq!['S', 'L', 'E', 'E', 'P', '(']);
    lemma_no_call(e, seq!['S', 'T', 'D', 'E', 'V', '(']);
}

/// A reference to a cell of the sheet is read as an operand naming that cell.
proof fn lemma_ref_operand(sheet: &Spreadsheet, r: int, c: int)
    requires
        sheet.dims_ok(),
        sheet.valid_cell(r, c),
    ensures
        operand_spec(sheet, ref_text(r, c)) == Ok::<(bool, i32), CommandStatus>(
            (true, sheet.key_of(r, c) as i32),
        ),
{
    lemma_ref_chars(r, c);
    lemma_ref_text(r, c, sheet.rows as int, sheet.cols as int);
    lemma_not_number(ref_text(r, c), 0);
}

/// `A op B` for references `A` and `B` of the sheet asks for `op` over the two cells, `A`
/// on the left.
#[verifier::rlimit(30)]
proof fn lemma_cell_op_cell(sheet: &Spreadsheet, r1: int, c1: int, r2: int, c2: int, o: char)
    requires
        sheet.dims_ok(),
        sheet.valid_cell(r1, c1),
        sheet.valid_cell(r2, c2),
        is_op(o),
    ensures
        ({
            let e = ref_text(r1, c1) + seq![o] + ref_text(r2, c2);
            arith_setting(sheet, e) == Setting::Formula(
                CellMeta { formula: op_code(o), parent1: sheet.key_of(r1, c1) as i32, parent2: sheet.key_of(r2, c2) as i32 },
                true,
            )
        }),
{
    let a = ref_text(r1, c1);
    let b = ref_text(r2, c2);
    let e = a + seq![o] + b;
    lemma_ref_chars(r1, c1);
    lemma_ref_chars(r2, c2);
    let n = a.len() as int;
    assert(e[n] == o);
    assert(e[0] == a[0]);
    lemma_not_number(e, 0);
    assert(!is_word_char(e[n]));
    assert(!all_word_chars(e));
    assert forall|j: int| 1 <= j < n implies !is_op(#[trigger] e[j]) by {
        assert(e[j] == a[j]);
    }
    lemma_find_op_at(e, 1, n);
    assert(e.subrange(0, n) =~= a);
    assert(e.subrange(n + 1, e.len() as int) =~= b);
    lemma_ref_operand(sheet, r1, c1);
    lemma_ref_operand(sheet, r2, c2);
}

/// Text made of upper-case letters, digits and `-` only, as references and numbers are.
spec fn token(s: Seq<char>) -> bool {
    &&& s.len() > 0
    &&& forall|i: int| 0 <= i < s.len() ==> is_upper(#[trigger] s[i]) || is_digit(s[i]) || s[i] == '-'
}

/// Two tokens around an operator make an expression without `(` that starts and ends
/// with no white space.
proof fn lemma_join(a: Seq<char>, o: char, b: Seq<char>)
    requires
        token(a),
        token(b),
        is_op(o),
    ensures
        (a + seq![o] + b).len() > 0,
        !is_ws((a + seq![o] + b)[0]),
        !is_ws((a + seq![o] + b).last()),
        forall|i: int| 0 <= i < (a + seq![o] + b).len() ==> #[trigger] (a + seq![o] + b)[i] != '(',
{
    let e = a + seq![o] + b;
    let n = a.len() as int;
    assert(e[0] == a[0]);
    assert(e.last() == b[b.len() - 1]);
    assert forall|i: int| 0 <= i < e.len() implies #[trigger] e[i] != '(' by {
        if i < n {
            assert(e[i] == a[i]);
        } else if i > n {
            assert(e[i] == b[i - n - 1]);
        }
    }
}

/// The text of a number is a token.
proof fn lemma_int_token(n: int)
    ensures
        token(int_text(n)),
{
    let t: nat = if n < 0 {
        (-n) as nat
    } else {
        n as nat
    };
    lemma_nat_text(t);
    let a = int_text(n);
    assert forall|i: int| 0 <= i < a.len() implies is_upper(#[trigger] a[i]) || is_digit(a[i]) || a[i] == '-' by {
        if n < 0 {
            if i > 0 {
                assert(a[i] == nat_text(t)[i - 1]);
            }
        } else {
            assert(a[i] == nat_text(t)[i]);
        }
    }
}

/// A reference is a token.
proof fn lemma_ref_token(r: int, c: int)
    requires
        0 <= r,
        0 <= c,
    ensures
        token(ref_text(r, c)),
{
    lemma_ref_chars(r, c);
}

/// No name is bound to the cell with key `p` on its own.
pub open spec fn unnamed(sheet: &Spreadsheet, p: i32) -> bool {
    forall|i: int| 0 <= i < sheet.named_ranges.view().len() ==> !is_single(
        #[trigger] sheet.named_ranges.view()[i].1,
        sheet.row_of(p as int) as int,
        sheet.col_of(p as int) as int,
    )
}

/// The cell (row, col) holds a formula that applies an operator (`+`, `-`, `*`, `/`) to two
/// operands: two cells, a cell and a number, or a number and a cell. Its cells are cells of
/// the sheet that no name is bound to on its own.
pub open spec fn operator_formula(sheet: &Spreadsheet, row: int, col: int) -> bool {
    let m = sheet.meta_of(sheet.key_of(row, col) as i32);
    let kind = formula_kind(m.formula);
    &&& m.formula != -1
    &&& 1 <= tdiv(m.formula as int, 10) <= 4
    &&& kind == 0 || kind == 2 || kind == 3
    &&& (kind == 0 || kind == 2) ==> 0 <= m.parent1 < sheet.rows * sheet.cols && unnamed(sheet, m.parent1)
    &&& (kind == 0 || kind == 3) ==> 0 <= m.parent2 < sheet.rows * sheet.cols && unnamed(sheet, m.parent2)
}

/// The text of an operator formula is an expression without `(` that starts and ends with
/// no white space, and is read back as that formula when assigned to any cell (tr, tc) of a
/// sheet `t` of the same size and names.
#[verifier::rlimit(30)]
proof fn lemma_formula_text_setting(sheet: &Spreadsheet, t: &Spreadsheet, row: int, col: int, tr: i16, tc: i16)
    requires
        sheet.dims_ok(),
        t.rows == sheet.rows,
        t.cols == sheet.cols,
        t.named_ranges == sheet.named_ranges,
        operator_formula(sheet, row, col),
    ensures
        formula_text(sheet, row, col).len() > 0,
        !is_ws(formula_text(sheet, row, col)[0]),
        !is_ws(formula_text(sheet, row, col).last()),
        formula_setting(t, tr, tc, formula_text(sheet, row, col)) == Setting::Formula(
            sheet.meta_of(sheet.key_of(row, col) as i32),
            true,
        ),
{
    let m = sheet.meta_of(sheet.key_of(row, col) as i32);
    let msb = tdiv(m.formula as int, 10);
    let kind = formula_kind(m.formula);
    let (p1, p2) = (m.parent1, m.parent2);
    let o = op_char(msb);
    assert(is_op(o));
    assert(op_code(o) == 10 * msb);
    assert(m.formula == 10 * msb + kind);
    if kind == 0 {
        lemma_key_name_ref(sheet, p1);
        lemma_key_name_ref(sheet, p2);
        let (r1, c1) = (sheet.row_of(p1 as int) as int, sheet.col_of(p1 as int) as int);
        let (r2, c2) = (sheet.row_of(p2 as int) as int, sheet.col_of(p2 as int) as int);
        let e = ref_text(r1, c1) + seq![o] + ref_text(r2, c2);
        assert(formula_text(sheet, row, col) == e);
        lemma_cell_op_cell(t, r1, c1, r2, c2, o);
        lemma_ref_token(r1, c1);
        lemma_ref_token(r2, c2);
        lemma_join(ref_text(r1, c1), o, ref_text(r2, c2));
        lemma_plain_expr(t, tr, tc, e);
    } else if kind == 2 {
        lemma_key_name_ref(sheet, p1);
        let (r1, c1) = (sheet.row_of(p1 as int) as int, sheet.col_of(p1 as int) as int);
        let e = ref_text(r1, c1) + seq![o] + int_text(p2 as int);
        assert(formula_text(sheet, row, col) == e);
        lemma_cell_op_number(t, r1, c1, o, p2);
        lemma_ref_token(r1, c1);
        lemma_int_token(p2 as int);
        lemma_join(ref_text(r1, c1), o, int_text(p2 as int));
        lemma_plain_expr(t, tr, tc, e);
    } else {
        lemma_key_name_ref(sheet, p2);
        let (r2, c2) = (sheet.row_of(p2 as int) as int, sheet.col_of(p2 as int) as int);
        let e = int_text(p1 as int) + seq![o] + ref_text(r2, c2);
        assert(formula_text(sheet, row, col) == e);
        lemma_number_op_cell(t, p1, o, r2, c2);
        lemma_ref_token(r2, c2);
        lemma_int_token(p1 as int);
        lemma_join(int_text(p1 as int), o, ref_text(r2, c2));
        lemma_plain_expr(t, tr, tc, e);
    }
}

/// The cell (row, col) holds a range function (`SUM`, `AVG`, `MIN`, `MAX` or `STDEV`) over
/// a range of the sheet, from its top-left to its bottom-right cell, whose corner cells no
/// name is bound to on its own, and whose text as `A1:B2` is no name.
pub open spec fn range_formula(sheet: &Spreadsheet, row: int, col: int) -> bool {
    let m = sheet.meta_of(sheet.key_of(row, col) as i32);
    let (p1, p2) = (m.parent1, m.parent2);
    &&& 5 <= m.formula <= 9
    &&& 0 <= p1 < sheet.rows * sheet.cols && unnamed(sheet, p1)
    &&& 0 <= p2 < sheet.rows * sheet.cols && unnamed(sheet, p2)
    &&& sheet.row_of(p1 as int) <= sheet.row_of(p2 as int)
    &&& sheet.col_of(p1 as int) <= sheet.col_of(p2 as int)
    &&& sheet.named_ranges.lookup(key_name(sheet, p1) + seq![':'] + key_name(sheet, p2)) is None
}

/// `A1:B2` for references of the sheet, the first no lower and no further right than the
/// second, is read as that range.
#[verifier::rlimit(30)]
proof fn lemma_range_ref(sheet: &Spreadsheet, r1: int, c1: int, r2: int, c2: int)
    requires
        sheet.dims_ok(),
        sheet.valid_cell(r1, c1),
        sheet.valid_cell(r2, c2),
        r1 <= r2,
        c1 <= c2,
    ensures
        range_spec(ref_text(r1, c1) + seq![':'] + ref_text(r2, c2), sheet.rows as int, sheet.cols as int) == Some(
            Range { start_row: r1 as i16, start_col: c1 as i16, end_row: r2 as i16, end_col: c2 as i16 },
        ),
{
    let a = ref_text(r1, c1);
    let b = ref_text(r2, c2);
    let s = a + seq![':'] + b;
    lemma_ref_chars(r1, c1);
    lemma_ref_chars(r2, c2);
    lemma_ref_text(r1, c1, sheet.rows as int, sheet.cols as int);
    lemma_ref_text(r2, c2, sheet.rows as int, sheet.cols as int);
    let n = a.len() as int;
    assert forall|k: int| 0 <= k < n implies s[k] != ':' by {
        assert(s[k] == a[k]);
    }
    assert(s[n] == ':');
    crate::formula::lemma_find_from(s, ':', 0, n);
    assert(s.subrange(0, n) =~= a);
    assert(s.subrange(n + 1, s.len() as int) =~= b);
}

/// `F(A1:B2)`, for a function name `F` of `plen - 1` letters and a range of the sheet that
/// is no name, is read as the function with code `code` over that range.
#[verifier::rlimit(30)]
proof fn lemma_range_call(sheet: &Spreadsheet, f: Seq<char>, code: i16, r1: int, c1: int, r2: int, c2: int)
    requires
        sheet.dims_ok(),
        sheet.valid_cell(r1, c1),
        sheet.valid_cell(r2, c2),
        r1 <= r2,
        c1 <= c2,
        sheet.named_ranges.lookup(ref_text(r1, c1) + seq![':'] + ref_text(r2, c2)) is None,
    ensures
        crate::evaluator::range_setting(
            sheet,
            code,
            f + seq!['('] + ref_text(r1, c1) + seq![':'] + ref_text(r2, c2) + seq![')'],
            f.len() + 1int,
        ) == Setting::Formula(
            CellMeta { formula: code, parent1: sheet.key_of(r1, c1) as i32, parent2: sheet.key_of(r2, c2) as i32 },
            true,
        ),
{
    let rs = ref_text(r1, c1) + seq![':'] + ref_text(r2, c2);
    let e = f + seq!['('] + rs + seq![')'];
    assert(f + seq!['('] + ref_text(r1, c1) + seq![':'] + ref_text(r2, c2) + seq![')'] =~= e);
    assert(e.subrange(f.len() + 1int, e.len() - 1int) =~= rs);
    lemma_range_ref(sheet, r1, c1, r2, c2);
}

/// The text of a range function starts with a letter, ends with `)`, and is read back as
/// that formula when assigned to any cell (tr, tc) of a sheet `t` of the same size and
/// names.
#[verifier::rlimit(30)]
proof fn lemma_range_text_setting(sheet: &Spreadsheet, t: &Spreadsheet, row: int, col: int, tr: i16, tc: i16)
    requires
        sheet.dims_ok(),
        t.rows == sheet.rows,
        t.cols == sheet.cols,
        t.named_ranges == sheet.named_ranges,
        range_formula(sheet, row, col),
    ensures
        formula_text(sheet, row, col).len() > 0,
        !is_ws(formula_text(sheet, row, col)[0]),
        !is_ws(formula_text(sheet, row, col).last()),
        formula_setting(t, tr, tc, formula_text(sheet, row, col)) == Setting::Formula(
            sheet.meta_of(sheet.key_of(row, col) as i32),
            true,
        ),
{
    let m = sheet.meta_of(sheet.key_of(row, col) as i32);
    let (p1, p2) = (m.parent1, m.parent2);
    lemma_key_name_ref(sheet, p1);
    lemma_key_name_ref(sheet, p2);
    let (r1, c1) = (sheet.row_of(p1 as int) as int, sheet.col_of(p1 as int) as int);
    let (r2, c2) = (sheet.row_of(p2 as int) as int, sheet.col_of(p2 as int) as int);
    let f = function_name(m.formula);
    let e = f + seq!['('] + ref_text(r1, c1) + seq![':'] + ref_text(r2, c2) + seq![')'];
    lemma_range_formula_text(sheet, row, col);
    assert(formula_text(sheet, row, col) == e);
    lemma_range_call(t, f, m.formula, r1, c1, r2, c2);
    assert(e.subrange(0, f.len() + 1int) =~= f + seq!['(']);
    lemma_call_prefix(t, tr, tc, e, m.formula);
    assert(e.last() == ')');
}

/// The text of a range function is its name, then its range in brackets.
#[verifier::rlimit(30)]
proof fn lemma_range_formula_text(sheet: &Spreadsheet, row: int, col: int)
    requires
        5 <= sheet.meta_of(sheet.key_of(row, col) as i32).formula <= 9,
    ensures
        ({
            let m = sheet.meta_of(sheet.key_of(row, col) as i32);
            formula_text(sheet, row, col) == function_name(m.formula) + seq!['('] + key_name(sheet, m.parent1)
                + seq![':'] + key_name(sheet, m.parent2) + seq![')']
        }),
{
    reveal_strlit("SUM");
    reveal_strlit("AVG");
    reveal_strlit("MIN");
    reveal_strlit("MAX");
    reveal_strlit("STDEV");
    let m = sheet.meta_of(sheet.key_of(row, col) as i32);
    assert(formula_kind(m.formula) == m.formula);
    assert(tdiv(m.formula as int, 10) == 0);
    if m.formula == 5 {
        assert("SUM"@ =~= function_name(m.formula));
    } else if m.formula == 6 {
        assert("AVG"@ =~= function_name(m.formula));
    } else if m.formula == 7 {
        assert("MIN"@ =~= function_name(m.formula));
    } else if m.formula == 8 {
        assert("MAX"@ =~= function_name(m.formula));
    } else {
        assert("STDEV"@ =~= function_name(m.formula));
    }
}

/// The name of the range function with code `code`.
spec fn function_name(code: i16) -> Seq<char> {
    if code == 5 {
        seq!['S', 'U', 'M']
    } else if code == 6 {
        seq!['A', 'V', 'G']
    } else if code == 7 {
        seq!['M', 'I', 'N']
    } else if code == 8 {
        seq!['M', 'A', 'X']
    } else {
        seq!['S', 'T', 'D', 'E', 'V']
    }
}

/// A call of the range function with code `code` is read as that function.
#[verifier::rlimit(30)]
proof fn lemma_call_prefix(sheet: &Spreadsheet, tr: i16, tc: i16, e: Seq<char>, code: i16)
    requires
        5 <= code <= 9,
        e.len() > function_name(code).len() + 1,
        e.subrange(0, function_name(code).len() + 1int) == function_name(code) + seq!['('],
    ensures
        !is_ws(e[0]),
        formula_setting(sheet, tr, tc, e) == crate::evaluator::range_setting(sheet, code, e, function_name(code).len() + 1int),
{
    let f = function_name(code);
    let n = f.len() + 1int;
    let p = e.subrange(0, n);
    assert(e[0] == p[0]);
    assert(e[1] == p[1]);
    assert(has_prefix(e, p));
    let avg = seq!['A', 'V', 'G', '('];
    let min = seq!['M', 'I', 'N', '('];
    let max = seq!['M', 'A', 'X', '('];
    let sum = seq!['S', 'U', 'M', '('];
    let sleep = seq!['S', 'L', 'E', 'E', 'P', '('];
    let stdev = seq!['S', 'T', 'D', 'E', 'V', '('];
    if code == 5 {
        assert(p =~= sum);
        lemma_differs_at(e, avg, 0);
        lemma_differs_at(e, min, 0);
        lemma_differs_at(e, max, 0);
        lemma_call_setting(sheet, tr, tc, e, 5, 4, false, false, false, true, false);
    } else if code == 6 {
        assert(p =~= avg);
        lemma_call_setting(sheet, tr, tc, e, 6, 4, true, false, false, false, false);
    } else if code == 7 {
        assert(p =~= min);
        lemma_differs_at(e, avg, 0);
        lemma_call_setting(sheet, tr, tc, e, 7, 4, false, true, false, false, false);
    } else if code == 8 {
        assert(p =~= max);
        lemma_differs_at(e, avg, 0);
        lemma_differs_at(e, min, 1);
        lemma_call_setting(sheet, tr, tc, e, 8, 4, false, false, true, false, false);
    } else {
        assert(p =~= stdev);
        lemma_differs_at(e, avg, 0);
        lemma_differs_at(e, min, 0);
        lemma_differs_at(e, max, 0);
        lemma_differs_at(e, sum, 1);
        lemma_differs_at(e, sleep, 1);
        lemma_call_setting(sheet, tr, tc, e, 9, 6, false, false, false, false, true);
    }
}

/// Which branch of [`formula_setting`] a call takes, from the prefixes it starts with.
#[verifier::rlimit(30)]
proof fn lemma_call_setting(
    sheet: &Spreadsheet,
    tr: i16,
    tc: i16,
    e: Seq<char>,
    code: i16,
    plen: int,
    avg: bool,
    min: bool,
    max: bool,
    sum: bool,
    stdev: bool,
)
    requires
        e.len() > 0,
        has_prefix(e, seq!['A', 'V', 'G', '(']) == avg,
        !avg ==> has_prefix(e, seq!['M', 'I', 'N', '(']) == min,
        !avg && !min ==> has_prefix(e, seq!['M', 'A', 'X', '(']) == max,
        !avg && !min && !max ==> has_prefix(e, seq!['S', 'U', 'M', '(']) == sum,
        !avg && !min && !max && !sum ==> !has_prefix(e, seq!['S', 'L', 'E', 'E', 'P', '(']),
        !avg && !min && !max && !sum ==> has_prefix(e, seq!['S', 'T', 'D', 'E', 'V', '(']) == stdev,
        avg ==> code == 6 && plen == 4,
        min ==> code == 7 && plen == 4,
        max ==> code == 8 && plen == 4,
        sum ==> code == 5 && plen == 4,
        stdev ==> code == 9 && plen == 6,
        avg || min || max || sum || stdev,
    ensures
        formula_setting(sheet, tr, tc, e) == crate::evaluator::range_setting(sheet, code, e, plen),
{
}

/// A text that differs from `p` at index `k` does not start with `p`.
proof fn lemma_differs_at(t: Seq<char>, p: Seq<char>, k: int)
    requires
        0 <= k < p.len(),
        k < t.len(),
        t[k] != p[k],
    ensures
        !has_prefix(t, p),
{
    if has_prefix(t, p) {
        assert(t.subrange(0, p.len() as int)[k] == t[k]);
    }
}

/// The formula of a cell that applies an operator to two operands, or a range function to a
/// range, written out as text, reads back as the same formula: assigning that text to the
/// cell asks for the cell's own operator or function and the same operands in the same
/// order. (Where a name is bound to an operand
/// cell on its own, the text holds the name, which such a formula does not read.)
pub proof fn law_formula_text_reads_back(sheet: &Spreadsheet, row: i16, col: i16)
    requires
        sheet.dims_ok(),
        operator_formula(sheet, row as int, col as int) || range_formula(sheet, row as int, col as int),
    ensures
        formula_setting(sheet, row, col, formula_text(sheet, row as int, col as int)) == Setting::Formula(
            sheet.meta_of(sheet.key_of(row as int, col as int) as i32),
            true,
        ),
{
    if operator_formula(sheet, row as int, col as int) {
        lemma_formula_text_setting(sheet, sheet, row as int, col as int, row, col);
    } else {
        lemma_range_text_setting(sheet, sheet, row as int, col as int, row, col);
    }
}

/// `n op B` for a number `n` and a reference `B` of the sheet asks for `op` over the number
/// and the cell, the number on the left.
#[verifier::rlimit(30)]
proof fn lemma_number_op_cell(sheet: &Spreadsheet, n: i32, o: char, r: int, c: int)
    requires
        sheet.dims_ok(),
        sheet.valid_cell(r, c),
        is_op(o),
    ensures
        arith_setting(sheet, int_text(n as int) + seq![o] + ref_text(r, c)) == Setting::Formula(
            CellMeta { formula: (op_code(o) + 3) as i16, parent1: n, parent2: sheet.key_of(r, c) as i32 },
            true,
        ),
{
    let a = int_text(n as int);
    let b = ref_text(r, c);
    let e = a + seq![o] + b;
    lemma_int_text(n as int);
    lemma_ref_chars(r, c);
    let t: nat = if n < 0 {
        (-n) as nat
    } else {
        n as nat
    };
    lemma_nat_text(t);
    let k = a.len() as int;
    assert forall|j: int| 1 <= j < k implies is_digit(#[trigger] a[j]) by {
        if n < 0 {
            assert(a[j] == nat_text(t)[j - 1]);
        } else {
            assert(a[j] == nat_text(t)[j]);
        }
    }
    assert(e[k] == o);
    assert(e[k + 1] == b[0]);
    lemma_not_number(e, k + 1);
    assert(!is_word_char(e[k]));
    assert(!all_word_chars(e));
    assert forall|j: int| 1 <= j < k implies !is_op(#[trigger] e[j]) by {
        assert(e[j] == a[j]);
    }
    lemma_find_op_at(e, 1, k);
    assert(e.subrange(0, k) =~= a);
    assert(e.subrange(k + 1, e.len() as int) =~= b);
    lemma_ref_operand(sheet, r, c);
}

/// `A op n` for a reference `A` of the sheet and a number `n` asks for `op` over the cell
/// and the number, the cell on the left.
#[verifier::rlimit(30)]
proof fn lemma_cell_op_number(sheet: &Spreadsheet, r: int, c: int, o: char, n: i32)
    requires
        sheet.dims_ok(),
        sheet.valid_cell(r, c),
        is_op(o),
    ensures
        arith_setting(sheet, ref_text(r, c) + seq![o] + int_text(n as int)) == Setting::Formula(
            CellMeta { formula: (op_code(o) + 2) as i16, parent1: sheet.key_of(r, c) as i32, parent2: n },
            true,
        ),
{
    let a = ref_text(r, c);
    let b = int_text(n as int);
    let e = a + seq![o] + b;
    lemma_int_text(n as int);
    lemma_ref_chars(r, c);
    let k = a.len() as int;
    assert(e[0] == a[0]);
    lemma_not_number(e, 0);
    assert(e[k] == o);
    assert(!is_word_char(e[k]));
    assert(!all_word_chars(e));
    assert forall|j: int| 1 <= j < k implies !is_op(#[trigger] e[j]) by {
        assert(e[j] == a[j]);
    }
    lemma_find_op_at(e, 1, k);
    assert(e.subrange(0, k) =~= a);
    assert(e.subrange(k + 1, e.len() as int) =~= b);
    lemma_ref_operand(sheet, r, c);
}

/// The key of a cell of the sheet fits in an `i32`.
proof fn lemma_key_fits(sheet: &Spreadsheet, r: int, c: int)
    requires
        sheet.dims_ok(),
        sheet.valid_cell(r, c),
    ensures
        sheet.key_of(r, c) as i32 as int == sheet.key_of(r, c),
{
    crate::spreadsheet::lemma_key_roundtrip(r, c, sheet.rows as int, sheet.cols as int);
    assert(sheet.rows * sheet.cols <= 999 * 18278) by (nonlinear_arith)
        requires
            1 <= sheet.rows <= 999,
            1 <= sheet.cols <= 18278,
    ;
}

/// Re-evaluating a cell whose formula applies an operator to two operands combines their
/// current values left to right: two cells (`A1-B1`), a cell and a number (`A1-10`), or a
/// number and a cell (`10-A1`). A cell operand holding an error gives an error.
pub proof fn law_operator_formula_reevaluates(sheet: &Spreadsheet, x: i32, o: char)
    requires
        is_op(o),
        ({
            let f = sheet.meta_of(x).formula as int;
            f == op_code(o) || f == op_code(o) + 2 || f == op_code(o) + 3
        }),
    ensures
        ({
            let m = sheet.meta_of(x);
            let g = sheet.grid@;
            &&& m.formula == op_code(o) ==> reeval_value(sheet, x) == match (g[m.parent1 as int], g[m.parent2 as int]) {
                (CellValue::Integer(a), CellValue::Integer(b)) => operator_value(o, a, b),
                _ => CellValue::Error,
            }
            &&& m.formula == op_code(o) + 2 ==> reeval_value(sheet, x) == match g[m.parent1 as int] {
                CellValue::Integer(a) => operator_value(o, a, m.parent2),
                CellValue::Error => CellValue::Error,
            }
            &&& m.formula == op_code(o) + 3 ==> reeval_value(sheet, x) == match g[m.parent2 as int] {
                CellValue::Integer(b) => operator_value(o, m.parent1, b),
                CellValue::Error => CellValue::Error,
            }
        }),
{
    let f = sheet.meta_of(x).formula as int;
    if o == '+' {
        assert(tdiv(f, 10) == 1);
    } else if o == '-' {
        assert(tdiv(f, 10) == 2);
    } else if o == '*' {
        assert(tdiv(f, 10) == 4);
    } else {
        assert(tdiv(f, 10) == 3);
    }
    if f == op_code(o) {
        assert(formula_kind(sheet.meta_of(x).formula) == 0);
    } else if f == op_code(o) + 2 {
        assert(formula_kind(sheet.meta_of(x).formula) == 2);
    } else {
        assert(formula_kind(sheet.meta_of(x).formula) == 3);
    }
}

/// A formula that reads cells, other than STDEV, gives the assigned cell the value that
/// re-evaluating it over the sheet as it was gives.
proof fn lemma_assigned_value(old: &Spreadsheet, new: &Spreadsheet, x: i32, m: CellMeta)
    requires
        assigned(old, new, x, Setting::Formula(m, true), 0, 0),
        !is_stdev_code(m.formula),
    ensures
        (Spreadsheet { grid: old.grid, ..*new }).meta_of(x) == m,
        (Spreadsheet { grid: old.grid, ..*new }).grid@ == old.grid@,
        new.grid@[x as int] == reeval_value(&Spreadsheet { grid: old.grid, ..*new }, x),
{
    let mid = Spreadsheet { grid: old.grid, ..*new };
    assert(mid.cell_meta@ == old.cell_meta@.insert(x, m));
    assert(reeval_gives(&mid, x, new.grid@[x as int]));
}

/// Evaluating `n op C`, a number and then a cell, gives the cell being assigned the number
/// combined with C's value, the number on the left: `10-A1` is 10 minus A1, and `100/A1`
/// is 100 divided by A1, rounded toward zero. Sums, differences and products wrap around;
/// dividing by zero, or `i32::MIN` by -1, gives an error, as does an error in C.
#[verifier::rlimit(30)]
pub proof fn law_number_op_cell(
    old: &Spreadsheet,
    new: &Spreadsheet,
    row: i16,
    col: i16,
    n: i32,
    o: char,
    r: i16,
    c: i16,
    st: CommandStatus,
)
    requires
        old.dims_ok(),
        old.valid_cell(r as int, c as int),
        is_op(o),
        arithmetic_outcome(old, new, row, col, int_text(n as int) + seq![o] + ref_text(r as int, c as int), st),
    ensures
        st == CommandStatus::CmdOk,
        new.grid@[old.key_of(row as int, col as int) as i32 as int] == match old.grid@[old.key_of(r as int, c as int)] {
            CellValue::Error => CellValue::Error,
            CellValue::Integer(v) => operator_value(o, n, v),
        },
{
    let x = old.key_of(row as int, col as int) as i32;
    let m = CellMeta { formula: (op_code(o) + 3) as i16, parent1: n, parent2: old.key_of(r as int, c as int) as i32 };
    lemma_number_op_cell(old, n, o, r as int, c as int);
    lemma_key_fits(old, r as int, c as int);
    lemma_assigned_value(old, new, x, m);
    law_operator_formula_reevaluates(&Spreadsheet { grid: old.grid, ..*new }, x, o);
}

/// Evaluating `C op n`, a cell and then a number, gives the cell being assigned C's value
/// combined with the number, C on the left: `A1-10` is A1 minus 10, `A1/4` is A1 divided
/// by 4, rounded toward zero. An error in C gives an error.
#[verifier::rlimit(30)]
pub proof fn law_cell_op_number(
    old: &Spreadsheet,
    new: &Spreadsheet,
    row: i16,
    col: i16,
    r: i16,
    c: i16,
    o: char,
    n: i32,
    st: CommandStatus,
)
    requires
        old.dims_ok(),
        old.valid_cell(r as int, c as int),
        is_op(o),
        arithmetic_outcome(old, new, row, col, ref_text(r as int, c as int) + seq![o] + int_text(n as int), st),
    ensures
        st == CommandStatus::CmdOk,
        new.grid@[old.key_of(row as int, col as int) as i32 as int] == match old.grid@[old.key_of(r as int, c as int)] {
            CellValue::Error => CellValue::Error,
            CellValue::Integer(v) => operator_value(o, v, n),
        },
{
    let x = old.key_of(row as int, col as int) as i32;
    let m = CellMeta { formula: (op_code(o) + 2) as i16, parent1: old.key_of(r as int, c as int) as i32, parent2: n };
    lemma_cell_op_number(old, r as int, c as int, o, n);
    lemma_key_fits(old, r as int, c as int);
    assert(formula_kind(m.formula) == 2);
    lemma_assigned_value(old, new, x, m);
    law_operator_formula_reevaluates(&Spreadsheet { grid: old.grid, ..*new }, x, o);
}

/// Evaluating `A op B` over two cells gives the cell being assigned A's value combined with
/// B's, A on the left: `A1-B1` is A1 minus B1. An error in either cell gives an error.
#[verifier::rlimit(30)]
pub proof fn law_cell_op_cell(
    old: &Spreadsheet,
    new: &Spreadsheet,
    row: i16,
    col: i16,
    r1: i16,
    c1: i16,
    o: char,
    r2: i16,
    c2: i16,
    st: CommandStatus,
)
    requires
        old.dims_ok(),
        old.valid_cell(r1 as int, c1 as int),
        old.valid_cell(r2 as int, c2 as int),
        is_op(o),
        arithmetic_outcome(old, new, row, col, ref_text(r1 as int, c1 as int) + seq![o] + ref_text(r2 as int, c2 as int), st),
    ensures
        st == CommandStatus::CmdOk,
        new.grid@[old.key_of(row as int, col as int) as i32 as int] == match (
            old.grid@[old.key_of(r1 as int, c1 as int)],
            old.grid@[old.key_of(r2 as int, c2 as int)],
        ) {
            (CellValue::Integer(a), CellValue::Integer(b)) => operator_value(o, a, b),
            _ => CellValue::Error,
        },
{
    let x = old.key_of(row as int, col as int) as i32;
    let m = CellMeta {
        formula: op_code(o),
        parent1: old.key_of(r1 as int, c1 as int) as i32,
        parent2: old.key_of(r2 as int, c2 as int) as i32,
    };
    lemma_cell_op_cell(old, r1 as int, c1 as int, r2 as int, c2 as int, o);
    lemma_key_fits(old, r1 as int, c1 as int);
    lemma_key_fits(old, r2 as int, c2 as int);
    assert(formula_kind(m.formula) == 0);
    lemma_assigned_value(old, new, x, m);
    law_operator_formula_reevaluates(&Spreadsheet { grid: old.grid, ..*new }, x, o);
}

/// Adding the range `g` to the locked ranges locks the cells of `g` and changes nothing
/// else.
proof fn lemma_push_locks(old: &Spreadsheet, new: &Spreadsheet, g: Range)
    requires
        new.locked_ranges@ == old.locked_ranges@.push(g),
    ensures
        forall|r2: int, c2: int| new.locked(r2, c2) == (old.locked(r2, c2) || g.contains(r2, c2)),
{
    let n = old.locked_ranges@.len() as int;
    assert forall|r2: int, c2: int| new.locked(r2, c2) == (old.locked(r2, c2) || g.contains(r2, c2)) by {
        if old.locked(r2, c2) {
            let i = choose|i: int| 0 <= i < old.locked_ranges@.len() && #[trigger] old.locked_ranges@[i].contains(r2, c2);
            assert(new.locked_ranges@[i] == old.locked_ranges@[i]);
        }
        if g.contains(r2, c2) {
            assert(new.locked_ranges@[n].contains(r2, c2));
        }
        if new.locked(r2, c2) {
            let i = choose|i: int| 0 <= i < new.locked_ranges@.len() && #[trigger] new.locked_ranges@[i].contains(r2, c2);
            if i < n {
                assert(old.locked_ranges@[i].contains(r2, c2));
            }
        }
    }
}

/// The reference of a cell that is no name, as the target of `lock_cell` or `unlock_cell`,
/// names that cell alone.
#[verifier::rlimit(30)]
proof fn lemma_cell_target(old: &Spreadsheet, r: i16, c: i16)
    requires
        old.dims_ok(),
        old.valid_cell(r as int, c as int),
        old.named_ranges.lookup(ref_text(r as int, c as int)) is None,
    ensures
        trim_spec(ref_text(r as int, c as int)) == ref_text(r as int, c as int),
        trim_spec(seq![' '] + ref_text(r as int, c as int)) == ref_text(r as int, c as int),
        lock_target(old, ref_text(r as int, c as int)) == Ok::<Range, CommandStatus>(
            Range { start_row: r, start_col: c, end_row: r, end_col: c },
        ),
{
    let x = ref_text(r as int, c as int);
    lemma_ref_chars(r as int, c as int);
    lemma_ref_text(r as int, c as int, old.rows as int, old.cols as int);
    assert(!is_ws(x[0]));
    assert(!is_ws(x.last()));
    assert(trim_spec(x) == x);
    assert((seq![' '] + x).drop_first() =~= x);
    assert(trim_spec(seq![' '] + x) == trim_spec(x));
    lemma_find_first(x, ':', 0);
    assert(find_from(x, ':', 0) == -1);
}

/// `A1:B2` for references of the sheet, the first no lower and no further right than the
/// second, as the target of `lock_cell` or `unlock_cell`, names that rectangle.
#[verifier::rlimit(30)]
proof fn lemma_range_target(old: &Spreadsheet, r1: i16, c1: i16, r2: i16, c2: i16)
    requires
        old.dims_ok(),
        old.valid_cell(r1 as int, c1 as int),
        old.valid_cell(r2 as int, c2 as int),
        r1 <= r2,
        c1 <= c2,
    ensures
        ({
            let x = ref_text(r1 as int, c1 as int) + seq![':'] + ref_text(r2 as int, c2 as int);
            &&& trim_spec(x) == x
            &&& trim_spec(seq![' '] + x) == x
            &&& lock_target(old, x) == Ok::<Range, CommandStatus>(
                Range { start_row: r1, start_col: c1, end_row: r2, end_col: c2 },
            )
        }),
{
    let a = ref_text(r1 as int, c1 as int);
    let b = ref_text(r2 as int, c2 as int);
    let x = a + seq![':'] + b;
    lemma_ref_chars(r1 as int, c1 as int);
    lemma_ref_chars(r2 as int, c2 as int);
    lemma_range_ref(old, r1 as int, c1 as int, r2 as int, c2 as int);
    assert(x[0] == a[0]);
    assert(x.last() == b.last());
    assert(!is_ws(x[0]));
    assert(!is_ws(x.last()));
    assert(trim_spec(x) == x);
    assert((seq![' '] + x).drop_first() =~= x);
    assert(trim_spec(seq![' '] + x) == trim_spec(x));
    assert(x[a.len() as int] == ':');
    lemma_find_first(x, ':', 0);
}

/// `lock_cell X` for the reference `X` of a cell locks that cell and no other: every other
/// cell stays locked or unlocked as it was. (A name spelled like the reference would be
/// read in its place.)
pub proof fn law_lock_cell_locks_one(old: &Spreadsheet, new: &Spreadsheet, r: i16, c: i16, st: CommandStatus)
    requires
        old.dims_ok(),
        old.valid_cell(r as int, c as int),
        old.named_ranges.lookup(ref_text(r as int, c as int)) is None,
        lock_outcome(old, new, "lock_cell "@ + ref_text(r as int, c as int), st),
    ensures
        st == CommandStatus::CmdOk,
        forall|r2: int, c2: int| new.locked(r2, c2) == (old.locked(r2, c2) || (r2 == r && c2 == c)),
{
    reveal_strlit("lock_cell ");
    let x = ref_text(r as int, c as int);
    assert(after("lock_cell "@ + x, 10) =~= x);
    lemma_cell_target(old, r, c);
    lemma_push_locks(old, new, Range { start_row: r, start_col: c, end_row: r, end_col: c });
}

/// `lock_cell A1:B2` locks the cells of that rectangle and no other: every cell outside it
/// stays locked or unlocked as it was.
pub proof fn law_lock_range_locks_rectangle(
    old: &Spreadsheet,
    new: &Spreadsheet,
    r1: i16,
    c1: i16,
    r2: i16,
    c2: i16,
    st: CommandStatus,
)
    requires
        old.dims_ok(),
        old.valid_cell(r1 as int, c1 as int),
        old.valid_cell(r2 as int, c2 as int),
        r1 <= r2,
        c1 <= c2,
        lock_outcome(old, new, "lock_cell "@ + ref_text(r1 as int, c1 as int) + seq![':'] + ref_text(r2 as int, c2 as int), st),
    ensures
        st == CommandStatus::CmdOk,
        forall|r: int, c: int| new.locked(r, c) == (old.locked(r, c) || (r1 <= r <= r2 && c1 <= c <= c2)),
{
    reveal_strlit("lock_cell ");
    let x = ref_text(r1 as int, c1 as int) + seq![':'] + ref_text(r2 as int, c2 as int);
    assert(after("lock_cell "@ + ref_text(r1 as int, c1 as int) + seq![':'] + ref_text(r2 as int, c2 as int), 10) =~= x);
    lemma_range_target(old, r1, c1, r2, c2);
    lemma_push_locks(old, new, Range { start_row: r1, start_col: c1, end_row: r2, end_col: c2 });
}

/// `unlock_cell X` right after `lock_cell X`, for the reference `X` of a cell that was not
/// locked on its own before, leaves every cell locked or unlocked as it was before both.
pub proof fn law_unlock_cell_undoes_lock_cell(
    s0: &Spreadsheet,
    s1: &Spreadsheet,
    s2: &Spreadsheet,
    r: i16,
    c: i16,
    st1: CommandStatus,
    st2: CommandStatus,
)
    requires
        s0.dims_ok(),
        s0.valid_cell(r as int, c as int),
        s0.named_ranges.lookup(ref_text(r as int, c as int)) is None,
        !s0.locked_ranges@.contains(Range { start_row: r, start_col: c, end_row: r, end_col: c }),
        lock_outcome(s0, s1, "lock_cell "@ + ref_text(r as int, c as int), st1),
        unlock_outcome(s1, s2, "unlock_cell "@ + ref_text(r as int, c as int), st2),
    ensures
        st1 == CommandStatus::CmdOk,
        st2 == CommandStatus::CmdOk,
        forall|r2: int, c2: int| s2.locked(r2, c2) == s0.locked(r2, c2),
{
    reveal_strlit("lock_cell ");
    reveal_strlit("unlock_cell ");
    let x = ref_text(r as int, c as int);
    assert(after("lock_cell "@ + x, 10) =~= x);
    assert(after("unlock_cell "@ + x, 11) =~= seq![' '] + x);
    lemma_cell_target(s0, r, c);
    lemma_cell_target(s1, r, c);
    crate::laws::law_unlock_undoes_lock(s0, s1, s2, Range { start_row: r, start_col: c, end_row: r, end_col: c });
}

/// A text that starts with a different character does not start with `p`.
proof fn lemma_other_start(t: Seq<char>, p: Seq<char>)
    requires
        t.len() >= 1,
        p.len() >= 1,
        t[0] != p[0],
    ensures
        !has_prefix(t, p),
        t != p,
{
    if has_prefix(t, p) {
        assert(t.subrange(0, p.len() as int)[0] == t[0]);
    }
}

/// The command `X=f`, for the reference `X` of a cell and a text `f` that starts and ends
/// with no white space, assigns `f` to that cell.
#[verifier::rlimit(30)]
proof fn lemma_assignment_command(
    sheet: &Spreadsheet,
    new: &Spreadsheet,
    tr: i16,
    tc: i16,
    f: Seq<char>,
    t1: u64,
    st: CommandStatus,
    out: CommandOutput,
)
    requires
        sheet.dims_ok(),
        sheet.valid_cell(tr as int, tc as int),
        f.len() > 0,
        !is_ws(f[0]),
        !is_ws(f.last()),
        command_outcome(sheet, new, ref_text(tr as int, tc as int) + seq!['='] + f, 0, t1, st, out),
    ensures
        set_outcome(sheet, new, tr, tc, f, 0, t1, st),
{
    reveal_strlit("disable_output");
    reveal_strlit("enable_output");
    reveal_strlit("last_edit");
    reveal_strlit("scroll_to ");
    let a = ref_text(tr as int, tc as int);
    let t = a + seq!['='] + f;
    lemma_ref_chars(tr as int, tc as int);
    lemma_ref_text(tr as int, tc as int, sheet.rows as int, sheet.cols as int);
    let n = a.len() as int;
    assert(t[0] == a[0]);
    lemma_other_start(t, "disable_output"@);
    lemma_other_start(t, "enable_output"@);
    lemma_other_start(t, "last_edit"@);
    lemma_other_start(t, "scroll_to "@);
    assert(t[n] == '=');
    lemma_find_first(t, '=', 0);
    let k = find_from(t, '=', 0);
    if k != n {
        if k < n {
            assert(t[k] == a[k]);
        }
        assert(false);
    }
    assert(t.subrange(0, n) =~= a);
    assert(after(t, n + 1) =~= f);
    assert(!is_ws(a[0]) && !is_ws(a.last()));
    assert(trim_spec(a) == a);
    assert(trim_spec(f) == f);
}

/// An assignment that asks for the formula `m` answers `CmdOk`, `LockedCell` or
/// `CircularRef`, and with `CmdOk` the cell holds `m`.
#[verifier::rlimit(30)]
proof fn lemma_formula_assigned(
    old: &Spreadsheet,
    new: &Spreadsheet,
    row: i16,
    col: i16,
    e: Seq<char>,
    m: CellMeta,
    t0: u64,
    t1: u64,
    st: CommandStatus,
)
    requires
        old.dims_ok(),
        old.valid_cell(row as int, col as int),
        set_outcome(old, new, row, col, e, t0, t1, st),
        formula_setting(old, row, col, e) == Setting::Formula(m, true),
    ensures
        st == CommandStatus::CmdOk || st == CommandStatus::LockedCell || st == CommandStatus::CircularRef,
        st == CommandStatus::CmdOk ==> new.meta_of(old.key_of(row as int, col as int) as i32) == m,
        st == CommandStatus::CmdOk && !is_stdev_code(m.formula) ==> exists|g: Spreadsheet|
            g.grid@ == old.grid@ && g.meta_of(old.key_of(row as int, col as int) as i32) == m && #[trigger] reeval_value(
                &g,
                old.key_of(row as int, col as int) as i32,
            ) == new.grid@[old.key_of(row as int, col as int) as i32 as int],
{
    let x = old.key_of(row as int, col as int) as i32;
    if !old.locked(row as int, col as int) {
        let (mid, t) = choose|mid: Spreadsheet, t: u64|
            #[trigger] assigned(old, &mid, x, Setting::Formula(m, true), t0, t) && sheet_ok(&mid) && if cycle_from(&mid, x) {
                &&& st == CommandStatus::CircularRef
                &&& new.grid@ == old.grid@
                &&& new.cell_meta@ == old.cell_meta@
                &&& same_dependencies(old, new)
                &&& new.range_children@.to_multiset() == old.range_children@.to_multiset()
                &&& forall|k: i32| #[trigger] new.children_of(k) == old.children_of(k)
                &&& t1 == t
                &&& *new == (Spreadsheet {
                    grid: new.grid,
                    children: new.children,
                    range_children: new.range_children,
                    cell_meta: new.cell_meta,
                    ..*old
                })
            } else {
                &&& st == CommandStatus::CmdOk
                &&& reevaluated(
                    &mid,
                    &Spreadsheet { cell_history: mid.cell_history, last_edited: mid.last_edited, ..*new },
                    x,
                    t,
                    t1,
                )
                &&& new.cell_history@.contains_key(x)
                &&& new.cell_history@[x]@ == history_of(old, x).push(old.grid@[x as int])
                &&& forall|j: i32| j != x ==> #[trigger] new.cell_history@.contains_key(j)
                    == old.cell_history@.contains_key(j) && new.cell_history@[j] == old.cell_history@[j]
                &&& *new == (Spreadsheet {
                    grid: new.grid,
                    cell_history: new.cell_history,
                    last_edited: Some((row, col)),
                    ..mid
                })
            };
        if !cycle_from(&mid, x) {
            assert(new.cell_meta == mid.cell_meta);
            assert(mid.cell_meta@ == old.cell_meta@.insert(x, m));
            lemma_key_fits(old, row as int, col as int);
            crate::spreadsheet::lemma_key_roundtrip(row as int, col as int, old.rows as int, old.cols as int);
            if crate::graph::reaches(&mid, x, x) {
                crate::laws::lemma_self_reach(&mid, x);
            }
            let n2 = Spreadsheet { cell_history: mid.cell_history, last_edited: mid.last_edited, ..*new };
            assert(n2.grid@[x as int] == mid.grid@[x as int]);
            let g = Spreadsheet { grid: old.grid, ..mid };
            assert(g.meta_of(x) == m);
            if !is_stdev_code(m.formula) {
                assert(reeval_value(&g, x) == new.grid@[x as int]);
            }
        }
    }
}

/// Cutting (`d`) a cell whose formula applies an operator or a range function leaves it 0
/// without a formula; moving the cursor to another cell and pasting (`p`) there gives that
/// cell the formula that was cut. The paste answers `CmdOk`, or `LockedCell` for a locked
/// cell, or `CircularRef` when the formula would make a ring.
#[verifier::rlimit(30)]
pub proof fn law_cut_paste_moves_formula(
    s0: &Spreadsheet,
    s1: &Spreadsheet,
    s2: &Spreadsheet,
    e0: &EditorState,
    e1: &EditorState,
    e2: &EditorState,
    e3: &EditorState,
    st1: CommandStatus,
    a1: VimAction,
    st2: CommandStatus,
    a2: VimAction,
)
    requires
        s0.dims_ok(),
        s0.valid_cell(e0.cursor_row as int, e0.cursor_col as int),
        s0.valid_cell(e2.cursor_row as int, e2.cursor_col as int),
        s0.grid@.len() == s0.rows * s0.cols,
        operator_formula(s0, e0.cursor_row as int, e0.cursor_col as int) || range_formula(
            s0,
            e0.cursor_row as int,
            e0.cursor_col as int,
        ),
        normal_outcome(s0, s1, e0, e1, "d"@, st1, a1),
        *e2 == (EditorState { cursor_row: e2.cursor_row, cursor_col: e2.cursor_col, ..*e1 }),
        normal_outcome(s1, s2, e2, e3, "p"@, st2, a2),
    ensures
        e1.clipboard matches Some((r, c, v, f)) && f@ == formula_text(s0, r as int, c as int) && f@.len() > 0,
        ({
            let k = s0.key_of(e0.cursor_row as int, e0.cursor_col as int);
            s1.grid@[k] == CellValue::Integer(0) && !s1.cell_meta@.contains_key(k as i32)
        }),
        st2 == CommandStatus::CmdOk || st2 == CommandStatus::LockedCell || st2 == CommandStatus::CircularRef,
        st2 == CommandStatus::CmdOk ==> s2.meta_of(s0.key_of(e2.cursor_row as int, e2.cursor_col as int) as i32)
            == s0.meta_of(s0.key_of(e0.cursor_row as int, e0.cursor_col as int) as i32),
{
    reveal_strlit("d");
    reveal_strlit("p");
    let (r, c) = (e0.cursor_row, e0.cursor_col);
    let (tr, tc) = (e2.cursor_row, e2.cursor_col);
    let k = s0.key_of(r as int, c as int) as i32;
    lemma_key_fits(s0, r as int, c as int);
    crate::spreadsheet::lemma_key_roundtrip(r as int, c as int, s0.rows as int, s0.cols as int);
    assert(s0.cell_meta@.contains_key(k));
    assert(relinked(s0, s1, k, None, false) && s1.grid@ == s0.grid@.update(k as int, CellValue::Integer(0)));
    assert(s1.grid@[k as int] == CellValue::Integer(0));
    assert(s1.cell_meta@ == s0.cell_meta@.remove(k));
    assert(s1.rows == s0.rows && s1.cols == s0.cols && s1.named_ranges == s0.named_ranges);
    if operator_formula(s0, r as int, c as int) {
        lemma_formula_text_setting(s0, s1, r as int, c as int, tr, tc);
    } else {
        lemma_range_text_setting(s0, s1, r as int, c as int, tr, tc);
    }
    let f = formula_text(s0, r as int, c as int);
    assert(copied_formula(s0, r, c) == f);
    assert(e2.clipboard == e1.clipboard);
    let sl = a2->Command_1;
    let out = a2->Command_0;
    assert(paste_outcome(s1, s2, e2, sl, st2, out));
    assert(cursor_ref(e2) == ref_text(tr as int, tc as int));
    assert(cursor_assignment(e2, f) == ref_text(tr as int, tc as int) + seq!['='] + f);
    lemma_assignment_command(s1, s2, tr, tc, f, sl, st2, out);
    lemma_formula_assigned(s1, s2, tr, tc, f, s0.meta_of(k), 0, sl, st2);
}

/// An assignment that asks for the number `n` answers `CmdOk`, `LockedCell` or
/// `CircularRef`, and with `CmdOk` the cell holds `n` and no formula.
#[verifier::rlimit(30)]
proof fn lemma_number_assigned(
    old: &Spreadsheet,
    new: &Spreadsheet,
    row: i16,
    col: i16,
    e: Seq<char>,
    n: i32,
    t0: u64,
    t1: u64,
    st: CommandStatus,
)
    requires
        old.dims_ok(),
        old.valid_cell(row as int, col as int),
        set_outcome(old, new, row, col, e, t0, t1, st),
        formula_setting(old, row, col, e) == Setting::Number(n),
    ensures
        st == CommandStatus::CmdOk || st == CommandStatus::LockedCell || st == CommandStatus::CircularRef,
        st == CommandStatus::CmdOk ==> new.grid@[old.key_of(row as int, col as int) as i32 as int] == CellValue::Integer(n)
            && !new.cell_meta@.contains_key(old.key_of(row as int, col as int) as i32),
{
    let x = old.key_of(row as int, col as int) as i32;
    if !old.locked(row as int, col as int) {
        let (mid, t) = choose|mid: Spreadsheet, t: u64|
            #[trigger] assigned(old, &mid, x, Setting::Number(n), t0, t) && sheet_ok(&mid) && if cycle_from(&mid, x) {
                &&& st == CommandStatus::CircularRef
                &&& new.grid@ == old.grid@
                &&& new.cell_meta@ == old.cell_meta@
                &&& same_dependencies(old, new)
                &&& new.range_children@.to_multiset() == old.range_children@.to_multiset()
                &&& forall|k: i32| #[trigger] new.children_of(k) == old.children_of(k)
                &&& t1 == t
                &&& *new == (Spreadsheet {
                    grid: new.grid,
                    children: new.children,
                    range_children: new.range_children,
                    cell_meta: new.cell_meta,
                    ..*old
                })
            } else {
                &&& st == CommandStatus::CmdOk
                &&& reevaluated(
                    &mid,
                    &Spreadsheet { cell_history: mid.cell_history, last_edited: mid.last_edited, ..*new },
                    x,
                    t,
                    t1,
                )
                &&& new.cell_history@.contains_key(x)
                &&& new.cell_history@[x]@ == history_of(old, x).push(old.grid@[x as int])
                &&& forall|j: i32| j != x ==> #[trigger] new.cell_history@.contains_key(j)
                    == old.cell_history@.contains_key(j) && new.cell_history@[j] == old.cell_history@[j]
                &&& *new == (Spreadsheet {
                    grid: new.grid,
                    cell_history: new.cell_history,
                    last_edited: Some((row, col)),
                    ..mid
                })
            };
        if !cycle_from(&mid, x) {
            lemma_key_fits(old, row as int, col as int);
            crate::spreadsheet::lemma_key_roundtrip(row as int, col as int, old.rows as int, old.cols as int);
            if crate::graph::reaches(&mid, x, x) {
                crate::laws::lemma_self_reach(&mid, x);
            }
            let n2 = Spreadsheet { cell_history: mid.cell_history, last_edited: mid.last_edited, ..*new };
            assert(n2.grid@[x as int] == mid.grid@[x as int]);
            assert(new.cell_meta == mid.cell_meta);
        }
    }
}

/// A number's text is read as that number.
#[verifier::rlimit(30)]
proof fn lemma_number_text_setting(sheet: &Spreadsheet, row: i16, col: i16, n: i32)
    ensures
        int_text(n as int).len() > 0,
        !is_ws(int_text(n as int)[0]),
        !is_ws(int_text(n as int).last()),
        formula_setting(sheet, row, col, int_text(n as int)) == Setting::Number(n),
{
    let a = int_text(n as int);
    lemma_int_text(n as int);
    lemma_int_token(n as int);
    assert(a.last() == a[a.len() - 1]);
    assert forall|i: int| 0 <= i < a.len() implies #[trigger] a[i] != '(' by {
        assert(is_upper(a[i]) || is_digit(a[i]) || a[i] == '-');
    }
    lemma_plain_expr(sheet, row, col, a);
}

/// Yanking (`y`) a cell without a formula, moving the cursor to another cell and pasting
/// (`p`) there gives that cell the copied number, without a formula. The paste answers
/// `CmdOk`, or `LockedCell` for a locked cell, or `CircularRef`; a copied error value is
/// not pasted: the paste is refused and nothing changes.
#[verifier::rlimit(30)]
pub proof fn law_yank_paste_copies_value(
    s0: &Spreadsheet,
    s1: &Spreadsheet,
    s2: &Spreadsheet,
    e0: &EditorState,
    e1: &EditorState,
    e2: &EditorState,
    e3: &EditorState,
    st1: CommandStatus,
    a1: VimAction,
    st2: CommandStatus,
    a2: VimAction,
)
    requires
        s0.dims_ok(),
        s0.valid_cell(e0.cursor_row as int, e0.cursor_col as int),
        s0.valid_cell(e2.cursor_row as int, e2.cursor_col as int),
        !s0.cell_meta@.contains_key(s0.key_of(e0.cursor_row as int, e0.cursor_col as int) as i32),
        normal_outcome(s0, s1, e0, e1, "y"@, st1, a1),
        *e2 == (EditorState { cursor_row: e2.cursor_row, cursor_col: e2.cursor_col, ..*e1 }),
        normal_outcome(s1, s2, e2, e3, "p"@, st2, a2),
    ensures
        e1.clipboard matches Some((r, c, v, f)) && f@.len() == 0 && v == s0.grid@[s0.key_of(
            e0.cursor_row as int,
            e0.cursor_col as int,
        )],
        ({
            let x = s0.key_of(e2.cursor_row as int, e2.cursor_col as int) as i32;
            match s0.grid@[s0.key_of(e0.cursor_row as int, e0.cursor_col as int)] {
                CellValue::Integer(n) => {
                    &&& st2 == CommandStatus::CmdOk || st2 == CommandStatus::LockedCell || st2
                        == CommandStatus::CircularRef
                    &&& st2 == CommandStatus::CmdOk ==> s2.grid@[x as int] == CellValue::Integer(n)
                        && !s2.cell_meta@.contains_key(x)
                },
                CellValue::Error => st2 == CommandStatus::Unrecognized && *s2 == *s1,
            }
        }),
{
    reveal_strlit("y");
    reveal_strlit("p");
    let (r, c) = (e0.cursor_row, e0.cursor_col);
    let (tr, tc) = (e2.cursor_row, e2.cursor_col);
    assert(*s1 == *s0);
    assert(copied_formula(s0, r, c) == Seq::<char>::empty());
    assert(e2.clipboard == e1.clipboard);
    let sl = a2->Command_1;
    let out = a2->Command_0;
    assert(paste_outcome(s1, s2, e2, sl, st2, out));
    if let CellValue::Integer(n) = s0.grid@[s0.key_of(r as int, c as int)] {
        let f = int_text(n as int);
        lemma_number_text_setting(s0, tr, tc, n);
        assert(cursor_ref(e2) == ref_text(tr as int, tc as int));
        assert(cursor_assignment(e2, f) == ref_text(tr as int, tc as int) + seq!['='] + f);
        lemma_assignment_command(s0, s2, tr, tc, f, sl, st2, out);
        lemma_number_assigned(s0, s2, tr, tc, f, n, 0, sl, st2);
    }
}

/// Yanking (`y`) a cell whose formula applies an operator or a range function, moving the
/// cursor to another cell and pasting (`p`) there gives that cell the same formula: the
/// clipboard holds the formula's text, never empty, and the paste assigns it. The paste answers `CmdOk`, or
/// `LockedCell` for a locked cell, or `CircularRef` when the formula would make a ring.
#[verifier::rlimit(30)]
pub proof fn law_yank_paste_copies_formula(
    s0: &Spreadsheet,
    s1: &Spreadsheet,
    s2: &Spreadsheet,
    e0: &EditorState,
    e1: &EditorState,
    e2: &EditorState,
    e3: &EditorState,
    st1: CommandStatus,
    a1: VimAction,
    st2: CommandStatus,
    a2: VimAction,
)
    requires
        s0.dims_ok(),
        s0.valid_cell(e0.cursor_row as int, e0.cursor_col as int),
        s0.valid_cell(e2.cursor_row as int, e2.cursor_col as int),
        operator_formula(s0, e0.cursor_row as int, e0.cursor_col as int) || range_formula(
            s0,
            e0.cursor_row as int,
            e0.cursor_col as int,
        ),
        normal_outcome(s0, s1, e0, e1, "y"@, st1, a1),
        *e2 == (EditorState { cursor_row: e2.cursor_row, cursor_col: e2.cursor_col, ..*e1 }),
        normal_outcome(s1, s2, e2, e3, "p"@, st2, a2),
    ensures
        e1.clipboard matches Some((r, c, v, f)) && f@ == formula_text(s0, r as int, c as int) && f@.len() > 0,
        st2 == CommandStatus::CmdOk || st2 == CommandStatus::LockedCell || st2 == CommandStatus::CircularRef,
        st2 == CommandStatus::CmdOk ==> s2.meta_of(s0.key_of(e2.cursor_row as int, e2.cursor_col as int) as i32)
            == s0.meta_of(s0.key_of(e0.cursor_row as int, e0.cursor_col as int) as i32),
{
    reveal_strlit("y");
    reveal_strlit("p");
    let (r, c) = (e0.cursor_row, e0.cursor_col);
    let (tr, tc) = (e2.cursor_row, e2.cursor_col);
    let k = s0.key_of(r as int, c as int) as i32;
    assert(s0.cell_meta@.contains_key(k));
    assert(*s1 == *s0);
    if operator_formula(s0, r as int, c as int) {
        lemma_formula_text_setting(s0, s0, r as int, c as int, tr, tc);
    } else {
        lemma_range_text_setting(s0, s0, r as int, c as int, tr, tc);
    }
    let f = formula_text(s0, r as int, c as int);
    assert(copied_formula(s0, r, c) == f);
    assert(e2.clipboard == e1.clipboard);
    let sl = a2->Command_1;
    let out = a2->Command_0;
    assert(paste_outcome(s1, s2, e2, sl, st2, out));
    assert(cursor_ref(e2) == ref_text(tr as int, tc as int));
    assert(cursor_assignment(e2, f) == ref_text(tr as int, tc as int) + seq!['='] + f);
    lemma_assignment_command(s0, s2, tr, tc, f, sl, st2, out);
    lemma_formula_assigned(s0, s2, tr, tc, f, s0.meta_of(k), 0, sl, st2);
}

/// A quotient is rounded toward zero: what is left over is smaller than the divisor and
/// has the sign of the dividend (`7 / 2` is 3, `-7 / 2` is -3).
pub proof fn law_quotient_rounds_toward_zero(a: int, b: int)
    requires
        b != 0,
    ensures
        ({
            let r = a - b * tdiv(a, b);
            &&& (if r < 0 { -r } else { r }) < (if b < 0 { -b } else { b })
            &&& r == 0 || (r < 0) == (a < 0)
        }),
{
    let x = if a < 0 { -a } else { a };
    let y = if b < 0 { -b } else { b };
    let q = x / y;
    assert(0 <= x - y * q < y) by (nonlinear_arith)
        requires
            x >= 0,
            y > 0,
            q == x / y,
    ;
    if a < 0 && b < 0 {
        assert(a - b * q == -(x - y * q)) by (nonlinear_arith)
            requires
                x == -a,
                y == -b,
        ;
    } else if a < 0 {
        assert(a - b * (-q) == -(x - y * q)) by (nonlinear_arith)
            requires
                x == -a,
                y == b,
        ;
    } else if b < 0 {
        assert(a - b * (-q) == x - y * q) by (nonlinear_arith)
            requires
                x == a,
                y == -b,
        ;
    } else {
        assert(a - b * q == x - y * q);
    }
}

/// `scroll_to X` for the reference `X` of a cell puts that cell at the top left of the view
/// and changes nothing else.
#[verifier::rlimit(30)]
pub proof fn law_scroll_to_cell(
    old: &Spreadsheet,
    new: &Spreadsheet,
    r: i16,
    c: i16,
    t0: u64,
    t1: u64,
    st: CommandStatus,
    out: CommandOutput,
)
    requires
        old.dims_ok(),
        old.valid_cell(r as int, c as int),
        command_outcome(old, new, "scroll_to "@ + ref_text(r as int, c as int), t0, t1, st, out),
    ensures
        st == CommandStatus::CmdOk,
        *new == (Spreadsheet { viewport_row: r, viewport_col: c, ..*old }),
        t1 == t0,
{
    reveal_strlit("scroll_to ");
    reveal_strlit("disable_output");
    reveal_strlit("enable_output");
    reveal_strlit("last_edit");
    let x = ref_text(r as int, c as int);
    let t = "scroll_to "@ + x;
    lemma_ref_chars(r as int, c as int);
    lemma_ref_text(r as int, c as int, old.rows as int, old.cols as int);
    assert(t[0] == 's');
    lemma_other_start(t, "disable_output"@);
    lemma_other_start(t, "enable_output"@);
    lemma_other_start(t, "last_edit"@);
    assert(t.subrange(0, 10) =~= "scroll_to "@);
    assert(after(t, 10) =~= x);
}

/// Scrolling down (`s`, `d`) and back up (`w`, `a`) returns to the rows or columns shown
/// before, where there was room to scroll; scrolling up never moves the view down, nor
/// above the first row or column.
pub proof fn law_scroll_back(v: i16, n: i16)
    requires
        0 <= v,
        v + 10 < n - 9,
    ensures
        crate::spreadsheet::scrolled_row(crate::spreadsheet::scrolled_row(v, n, 's'), n, 'w') == v,
        crate::spreadsheet::scrolled_col(crate::spreadsheet::scrolled_col(v, n, 'd'), n, 'a') == v,
        0 <= crate::spreadsheet::scrolled_row(v, n, 'w') <= v,
        0 <= crate::spreadsheet::scrolled_col(v, n, 'a') <= v,
        crate::spreadsheet::scrolled_row(v, n, 's') > v,
        crate::spreadsheet::scrolled_col(v, n, 'd') > v,
{
}

/// `:w name` makes `name` the current file, so a later `:w` saves to it again.
#[verifier::rlimit(30)]
pub proof fn law_write_remembers_file(
    s0: &Spreadsheet,
    s1: &Spreadsheet,
    s2: &Spreadsheet,
    e0: &EditorState,
    e1: &EditorState,
    e2: &EditorState,
    name: Seq<char>,
    st1: CommandStatus,
    a1: VimAction,
    st2: CommandStatus,
    a2: VimAction,
)
    requires
        name.len() > 0,
        !is_ws(name[0]),
        !is_ws(name.last()),
        normal_outcome(s0, s1, e0, e1, ":w "@ + name, st1, a1),
        normal_outcome(s1, s2, e1, e2, ":w"@, st2, a2),
    ensures
        st1 == CommandStatus::CmdOk && (a1 matches VimAction::Save(g, q) && g@ == name && !q),
        st2 == CommandStatus::CmdOk && (a2 matches VimAction::Save(g, q) && g@ == name && !q),
        *s2 == *s0,
{
    reveal_strlit(":w ");
    reveal_strlit(":w");
    reveal_strlit("w");
    reveal_strlit("wq");
    let t1 = ":w "@ + name;
    let c1 = t1.subrange(1, t1.len() as int);
    assert(c1 =~= seq!['w', ' '] + name);
    assert(c1.subrange(0, 1) =~= "w"@);
    lemma_differs_at(c1, "wq"@, 1);
    assert(c1.subrange(2, c1.len() as int) =~= name);
    assert(trim_spec(name) == name);
    let t2 = ":w"@;
    let c2 = t2.subrange(1, t2.len() as int);
    assert(c2 =~= "w"@);
    assert(c2.subrange(0, 1) =~= "w"@);
    assert(!has_prefix(c2, "wq"@));
}

/// The command `X=n op C`, a number and then a cell, gives the cell `X` the number combined
/// with C's value, the number on the left (`B1=10-A1` makes B1 ten minus A1), with no
/// other cell read. It answers `CmdOk`, or `LockedCell` for a locked cell, or `CircularRef`
/// when the formula would make a ring.
#[verifier::rlimit(30)]
pub proof fn law_command_number_op_cell(
    old: &Spreadsheet,
    new: &Spreadsheet,
    row: i16,
    col: i16,
    n: i32,
    o: char,
    r: i16,
    c: i16,
    t1: u64,
    st: CommandStatus,
    out: CommandOutput,
)
    requires
        old.dims_ok(),
        old.valid_cell(row as int, col as int),
        old.valid_cell(r as int, c as int),
        is_op(o),
        command_outcome(
            old,
            new,
            ref_text(row as int, col as int) + seq!['='] + (int_text(n as int) + seq![o] + ref_text(r as int, c as int)),
            0,
            t1,
            st,
            out,
        ),
    ensures
        st == CommandStatus::CmdOk || st == CommandStatus::LockedCell || st == CommandStatus::CircularRef,
        st == CommandStatus::CmdOk ==> new.grid@[old.key_of(row as int, col as int) as i32 as int] == match old.grid@[old.key_of(
            r as int,
            c as int,
        )] {
            CellValue::Error => CellValue::Error,
            CellValue::Integer(v) => operator_value(o, n, v),
        },
{
    let e = int_text(n as int) + seq![o] + ref_text(r as int, c as int);
    let x = old.key_of(row as int, col as int) as i32;
    let m = CellMeta { formula: (op_code(o) + 3) as i16, parent1: n, parent2: old.key_of(r as int, c as int) as i32 };
    lemma_int_token(n as int);
    lemma_ref_token(r as int, c as int);
    lemma_join(int_text(n as int), o, ref_text(r as int, c as int));
    lemma_number_op_cell(old, n, o, r as int, c as int);
    lemma_plain_expr(old, row, col, e);
    lemma_assignment_command(old, new, row, col, e, t1, st, out);
    lemma_key_fits(old, r as int, c as int);
    assert(formula_kind(m.formula) == 3);
    lemma_formula_assigned(old, new, row, col, e, m, 0, t1, st);
    if st == CommandStatus::CmdOk {
        let g = choose|g: Spreadsheet|
            g.grid@ == old.grid@ && g.meta_of(x) == m && #[trigger] reeval_value(&g, x) == new.grid@[x as int];
        law_operator_formula_reevaluates(&g, x, o);
    }
}

/// The command `X=n` for a number `n` leaves the cell `X` holding `n` and no formula. It
/// answers `CmdOk`, or `LockedCell` for a locked cell, or `CircularRef`.
#[verifier::rlimit(30)]
pub proof fn law_command_number(
    old: &Spreadsheet,
    new: &Spreadsheet,
    row: i16,
    col: i16,
    n: i32,
    t1: u64,
    st: CommandStatus,
    out: CommandOutput,
)
    requires
        old.dims_ok(),
        old.valid_cell(row as int, col as int),
        command_outcome(old, new, ref_text(row as int, col as int) + seq!['='] + int_text(n as int), 0, t1, st, out),
    ensures
        st == CommandStatus::CmdOk || st == CommandStatus::LockedCell || st == CommandStatus::CircularRef,
        st == CommandStatus::CmdOk ==> new.grid@[old.key_of(row as int, col as int) as i32 as int] == CellValue::Integer(n)
            && !new.cell_meta@.contains_key(old.key_of(row as int, col as int) as i32),
{
    lemma_number_text_setting(old, row, col, n);
    lemma_assignment_command(old, new, row, col, int_text(n as int), t1, st, out);
    lemma_number_assigned(old, new, row, col, int_text(n as int), n, 0, t1, st);
}

} // verus!
