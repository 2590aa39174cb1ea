//! Assignments: parsing an expression, giving a cell its formula and value, re-evaluating
//! what depends on it, and the commands of the command line.
use vstd::prelude::*;
use crate::cell::{CellValue, cell_ref_spec, parse_cell_ref_chars, parse_cell_reference};
use crate::formula::{
    Range, count_ok, eval_avg, eval_max, eval_min, eval_variance, key_rect, parse_range_chars, range_ok,
    range_spec, sum_value,
};
use crate::reevaluate_topo::{add_sleep, binop, reeval_gives, reeval_sleep};
use crate::text::{chars_of, parse_i32, parse_i32_chars, parse_i32_spec, starts_with, string_of, sub_chars};
use crate::reevaluate_topo::{apply_binop, reeval_value, is_stdev_code, meta_readable};
use crate::graph::{cycle_from, formula_kind, rem10};
use crate::reevaluate_topo::{reevaluated, toposort_reval_detect_cycle};
use crate::graph::{
    add_children, direct_parents, drops_range, edge, range_edge, reads_range, remove_all_parents,
};
use crate::reevaluate_topo::{deps_ok, range_ordered, reads, reeval_ok};
use crate::spreadsheet::{CellMeta, CommandStatus, RangeChild, Spreadsheet, empty_meta};

verus! {

broadcast use {vstd::std_specs::hash::group_hash_axioms, vstd::seq_lib::group_filter_ensures};

/// The recorded ranges after `x` gives up its old formula `om` and, when `linked`, takes
/// the formula `m`.
pub open spec fn relinked_ranges(old: Seq<RangeChild>, x: i32, om: CellMeta, m: Option<CellMeta>, linked: bool) -> Seq<RangeChild> {
    let a = if drops_range(om) {
        old.filter(|rc: RangeChild| rc.child_key != x)
    } else {
        old
    };
    if linked && m is Some && reads_range(m->0) {
        a.push(RangeChild { start_key: m->0.parent1, end_key: m->0.parent2, child_key: x })
    } else {
        a
    }
}

/// The cells recorded as reading `k` directly after `x` gives up its old formula `om` and,
/// when `linked`, takes the formula `m`.
pub open spec fn relinked_children(old: Set<i32>, k: i32, x: i32, om: CellMeta, m: Option<CellMeta>, linked: bool) -> Set<i32> {
    let a = if direct_parents(om).contains(k) {
        old.remove(x)
    } else {
        old
    };
    if linked && m is Some && direct_parents(m->0).contains(k) {
        a.insert(x)
    } else {
        a
    }
}

/// `new` is `old` after the cell `x` gave up its formula and its recorded dependencies and
/// took the formula `m` (none for a plain value), with the cells `m` reads recorded when
/// `linked`.
pub open spec fn relinked(old: &Spreadsheet, new: &Spreadsheet, x: i32, m: Option<CellMeta>, linked: bool) -> bool {
    let om = old.meta_of(x);
    &&& new.cell_meta@ == match m {
        Some(mm) => old.cell_meta@.insert(x, mm),
        None => old.cell_meta@.remove(x),
    }
    &&& forall|k: i32| #[trigger] new.children_of(k) == relinked_children(old.children_of(k), k, x, om, m, linked)
    &&& new.range_children@ == relinked_ranges(old.range_children@, x, om, m, linked)
    &&& new.children_finite()
    &&& new.grid@.len() == old.grid@.len()
    &&& *new == (Spreadsheet {
        grid: new.grid,
        children: new.children,
        range_children: new.range_children,
        cell_meta: new.cell_meta,
        ..*old
    })
}

/// Gives the cell (row, col) the formula `m` (none for a plain value) in place of its old
/// one, and records the cells `m` reads when `linked`.
fn relink(sheet: &mut Spreadsheet, row: i16, col: i16, m: Option<CellMeta>, linked: bool)
    requires
        old(sheet).dims_ok(),
        old(sheet).children_finite(),
    ensures
        relinked(old(sheet), final(sheet), old(sheet).key_of(row as int, col as int) as i32, m, linked),
        final(sheet).grid == old(sheet).grid,
{
    let ghost s0 = *old(sheet);
    let key = sheet.get_key(row, col);
    remove_all_parents(sheet, row, col);
    let ghost s1 = *sheet;
    match m {
        Some(mm) => {
            let meta = sheet.get_cell_meta(row, col);
            *meta = mm;
            if linked {
                let ghost s2 = *sheet;
                add_children(sheet, mm.parent1, mm.parent2, mm.formula, row, col);
                proof {
                    assert(mm.formula == -1 ==> direct_parents(mm) == Set::<i32>::empty());
                }
            }
        },
        None => {
            sheet.cell_meta.remove(&key);
        },
    }
    proof {
        let om = s0.meta_of(key);
        assert forall|k: i32| #[trigger] sheet.children_of(k) == relinked_children(s0.children_of(k), k, key, om, m, linked) by {
            assert(s1.children_of(k) == (if direct_parents(om).contains(k) {
                s0.children_of(k).remove(key)
            } else {
                s0.children_of(k)
            }));
        }
    }
}


/// A recorded dependency is a cell the reader's formula reads.
pub proof fn lemma_edge_reads(sheet: &Spreadsheet, p: i32, c: i32)
    requires
        deps_ok(sheet),
        edge(sheet, p, c),
        0 <= p < sheet.grid@.len(),
    ensures
        reads(sheet, c, p),
        sheet.cell_meta@.contains_key(c),
{
    assert(reeval_ok(sheet, c));
    let m = sheet.meta_of(c);
    if sheet.children_of(p).contains(c) {
        assert(direct_parents(m).contains(p));
    } else {
        let i = choose|i: int|
            0 <= i < sheet.range_children@.len() && (#[trigger] sheet.range_children@[i]).child_key == c
                && sheet.key_in_range(p as int, sheet.range_children@[i].start_key as int, sheet.range_children@[i].end_key as int);
        let rc = sheet.range_children@[i];
        assert(drops_range(m));
    }
}


/// A formula that can be recorded for a cell: not the empty code, and a range formula only
/// for SUM, AVG, MIN, MAX and STDEV.
pub open spec fn recordable(m: CellMeta) -> bool {
    m.formula != -1 && (reads_range(m) ==> drops_range(m))
}

proof fn lemma_relinked_range_entries(old: &Spreadsheet, new: &Spreadsheet, x: i32, m: Option<CellMeta>, linked: bool, e: RangeChild)
    requires
        relinked(old, new, x, m, linked),
    ensures
        new.range_children@.contains(e) <==> (old.range_children@.contains(e) && !(drops_range(old.meta_of(x))
            && e.child_key == x)) || (linked && m is Some && reads_range(m->0) && e == (RangeChild {
            start_key: m->0.parent1,
            end_key: m->0.parent2,
            child_key: x,
        })),
{
    let om = old.meta_of(x);
    let f = |rc: RangeChild| rc.child_key != x;
    let a = if drops_range(om) {
        old.range_children@.filter(f)
    } else {
        old.range_children@
    };
    if drops_range(om) {
        if a.contains(e) {
            old.range_children@.lemma_filter_contains_rev(f, e);
            let i = choose|i: int| 0 <= i < a.len() && a[i] == e;
            assert(f(a[i]));
        }
        if old.range_children@.contains(e) && e.child_key != x {
            let i = choose|i: int| 0 <= i < old.range_children@.len() && old.range_children@[i] == e;
            old.range_children@.lemma_filter_contains(f, i);
        }
    }
    if linked && m is Some && reads_range(m->0) {
        let b = a.push(RangeChild { start_key: m->0.parent1, end_key: m->0.parent2, child_key: x });
        assert(b[a.len() as int] == RangeChild { start_key: m->0.parent1, end_key: m->0.parent2, child_key: x });
        if a.contains(e) {
            let i = choose|i: int| 0 <= i < a.len() && a[i] == e;
            assert(b[i] == e);
        }
        if b.contains(e) {
            let i = choose|i: int| 0 <= i < b.len() && b[i] == e;
            if i < a.len() {
                assert(a[i] == e);
            }
        }
    }
}

/// `c` reads `p` through a recorded range entry.
proof fn lemma_range_edge_entry(sheet: &Spreadsheet, p: i32, c: i32)
    ensures
        range_edge(sheet, p, c) <==> exists|e: RangeChild|
            #[trigger] sheet.range_children@.contains(e) && e.child_key == c && sheet.key_in_range(
                p as int,
                e.start_key as int,
                e.end_key as int,
            ),
{
    if range_edge(sheet, p, c) {
        let i = choose|i: int|
            0 <= i < sheet.range_children@.len() && (#[trigger] sheet.range_children@[i]).child_key == c
                && sheet.key_in_range(p as int, sheet.range_children@[i].start_key as int, sheet.range_children@[i].end_key as int);
        assert(sheet.range_children@.contains(sheet.range_children@[i]));
    }
    if exists|e: RangeChild|
        #[trigger] sheet.range_children@.contains(e) && e.child_key == c && sheet.key_in_range(
            p as int,
            e.start_key as int,
            e.end_key as int,
        ) {
        let e = choose|e: RangeChild|
            #[trigger] sheet.range_children@.contains(e) && e.child_key == c && sheet.key_in_range(
                p as int,
                e.start_key as int,
                e.end_key as int,
            );
        let i = choose|i: int| 0 <= i < sheet.range_children@.len() && sheet.range_children@[i] == e;
        assert(sheet.range_children@[i].child_key == c);
    }
}

/// Replacing the formula of `x` leaves alone which cells the other cells read.
pub proof fn lemma_relink_edges(old: &Spreadsheet, new: &Spreadsheet, x: i32, m: Option<CellMeta>, linked: bool)
    requires
        relinked(old, new, x, m, linked),
    ensures
        forall|p: i32, c: i32| c != x ==> (#[trigger] edge(new, p, c) == edge(old, p, c)),
{
    let om = old.meta_of(x);
    assert forall|p: i32, c: i32| c != x implies (#[trigger] edge(new, p, c) == edge(old, p, c)) by {
        assert(new.children_of(p) == relinked_children(old.children_of(p), p, x, om, m, linked));
        assert(new.children_of(p).contains(c) == old.children_of(p).contains(c));
        lemma_range_edge_entry(new, p, c);
        lemma_range_edge_entry(old, p, c);
        if range_edge(new, p, c) {
            let e = choose|e: RangeChild|
                #[trigger] new.range_children@.contains(e) && e.child_key == c && new.key_in_range(p as int, e.start_key as int, e.end_key as int);
            lemma_relinked_range_entries(old, new, x, m, linked, e);
        }
        if range_edge(old, p, c) {
            let e = choose|e: RangeChild|
                #[trigger] old.range_children@.contains(e) && e.child_key == c && old.key_in_range(p as int, e.start_key as int, e.end_key as int);
            lemma_relinked_range_entries(old, new, x, m, linked, e);
        }
    }
}

/// Replacing the formula of `x` keeps no two recorded ranges belonging to one cell, and
/// leaves the ranges of the other cells as they were.
proof fn lemma_relink_ranges_unique(old: &Spreadsheet, new: &Spreadsheet, x: i32, m: Option<CellMeta>, linked: bool)
    requires
        deps_ok(old),
        relinked(old, new, x, m, linked),
    ensures
        ranges_unique(old.range_children@) ==> ranges_unique(new.range_children@),
        ranges_of_others(new.range_children@, x) == ranges_of_others(old.range_children@, x),
        ranges_of(new.range_children@, x) == (if linked && m is Some && reads_range(m->0) {
            seq![RangeChild { start_key: m->0.parent1, end_key: m->0.parent2, child_key: x }]
        } else {
            Seq::<RangeChild>::empty()
        }),
{
    let om = old.meta_of(x);
    let r = old.range_children@;
    let a = if drops_range(om) {
        r.filter(|rc: RangeChild| rc.child_key != x)
    } else {
        r
    };
    lemma_ranges_split(r, x);
    if !drops_range(om) {
        assert forall|i: int| 0 <= i < r.len() implies (#[trigger] r[i]).child_key != x by {
            assert(drops_range(old.meta_of(r[i].child_key)));
        }
        lemma_ranges_without(r, x);
    }
    assert(forall|i: int| 0 <= i < a.len() ==> (#[trigger] a[i]).child_key != x);
    lemma_ranges_without(a, x);
    assert(ranges_unique(r) ==> ranges_unique(a));
    if linked && m is Some && reads_range(m->0) {
        let e = RangeChild { start_key: m->0.parent1, end_key: m->0.parent2, child_key: x };
        assert(new.range_children@ == a.push(e));
        a.lemma_filter_push(e, |rc: RangeChild| rc.child_key != x);
        a.lemma_filter_push(e, |rc: RangeChild| rc.child_key == x);
        assert(ranges_of(new.range_children@, x) =~= seq![e]);
        if ranges_unique(r) {
            let n = new.range_children@;
            assert forall|i: int, j: int| 0 <= i < j < n.len() implies (#[trigger] n[i]).child_key != (#[trigger] n[j]).child_key by {
                if j == n.len() - 1 {
                    assert(n[i] == a[i]);
                } else {
                    assert(n[i] == a[i] && n[j] == a[j]);
                }
            }
        }
    } else {
        assert(new.range_children@ == a);
    }
}

/// Replacing the formula of `x` keeps the dependencies faithful, leaves the cells that
/// read other cells as they were, and records for `x` exactly the cells its new formula
/// reads (none when not `linked`).
pub proof fn lemma_relink_keeps(old: &Spreadsheet, new: &Spreadsheet, x: i32, m: Option<CellMeta>, linked: bool)
    requires
        deps_ok(old),
        relinked(old, new, x, m, linked),
        linked ==> m is Some && recordable(m->0) && reeval_ok(new, x),
        linked && reads_range(m->0) ==> range_ordered(new, m->0.parent1, m->0.parent2),
    ensures
        deps_ok(new),
        forall|p: i32, c: i32| c != x ==> (#[trigger] edge(new, p, c) == edge(old, p, c)),
        forall|p: i32| 0 <= p < new.grid@.len() ==> (#[trigger] edge(new, p, x) == (linked && reads(new, x, p))),
        ranges_unique(old.range_children@) ==> ranges_unique(new.range_children@),
{
    let om = old.meta_of(x);
    lemma_relink_ranges_unique(old, new, x, m, linked);
    assert forall|p: i32, c: i32| c != x implies (#[trigger] edge(new, p, c) == edge(old, p, c)) by {
        assert(new.children_of(p) == relinked_children(old.children_of(p), p, x, om, m, linked));
        assert(new.children_of(p).contains(c) == old.children_of(p).contains(c));
        lemma_range_edge_entry(new, p, c);
        lemma_range_edge_entry(old, p, c);
        if range_edge(new, p, c) {
            let e = choose|e: RangeChild|
                #[trigger] new.range_children@.contains(e) && e.child_key == c && new.key_in_range(p as int, e.start_key as int, e.end_key as int);
            lemma_relinked_range_entries(old, new, x, m, linked, e);
        }
        if range_edge(old, p, c) {
            let e = choose|e: RangeChild|
                #[trigger] old.range_children@.contains(e) && e.child_key == c && old.key_in_range(p as int, e.start_key as int, e.end_key as int);
            lemma_relinked_range_entries(old, new, x, m, linked, e);
        }
    }
    assert forall|p: i32| 0 <= p < new.grid@.len() implies (#[trigger] edge(new, p, x) == (linked && reads(new, x, p))) by {
        assert(new.children_of(p) == relinked_children(old.children_of(p), p, x, om, m, linked));
        if old.children_of(p).contains(x) {
            assert(direct_parents(om).contains(p));
        }
        lemma_range_edge_entry(new, p, x);
        if range_edge(new, p, x) {
            let e = choose|e: RangeChild|
                #[trigger] new.range_children@.contains(e) && e.child_key == x && new.key_in_range(p as int, e.start_key as int, e.end_key as int);
            lemma_relinked_range_entries(old, new, x, m, linked, e);
            if old.range_children@.contains(e) {
                let i = choose|i: int| 0 <= i < old.range_children@.len() && old.range_children@[i] == e;
                assert(drops_range(old.meta_of(old.range_children@[i].child_key)));
            }
        }
        if linked && reads(new, x, p) {
            let mm = m->0;
            if reads_range(mm) {
                let e = RangeChild { start_key: mm.parent1, end_key: mm.parent2, child_key: x };
                lemma_relinked_range_entries(old, new, x, m, linked, e);
            }
        }
    }
    assert forall|p: i32| #[trigger] edge(new, p, x) implies linked by {
        assert(new.children_of(p) == relinked_children(old.children_of(p), p, x, om, m, linked));
        if old.children_of(p).contains(x) {
            assert(direct_parents(om).contains(p));
        }
        lemma_range_edge_entry(new, p, x);
        if range_edge(new, p, x) {
            let e = choose|e: RangeChild|
                #[trigger] new.range_children@.contains(e) && e.child_key == x && new.key_in_range(p as int, e.start_key as int, e.end_key as int);
            lemma_relinked_range_entries(old, new, x, m, linked, e);
            if old.range_children@.contains(e) {
                let i = choose|i: int| 0 <= i < old.range_children@.len() && old.range_children@[i] == e;
                assert(drops_range(old.meta_of(old.range_children@[i].child_key)));
            }
        }
    }
    assert forall|p: i32, c: i32| #[trigger] new.children_of(p).contains(c) implies new.cell_meta@.contains_key(c)
        && direct_parents(new.meta_of(c)).contains(p) by {
        assert(new.children_of(p) == relinked_children(old.children_of(p), p, x, om, m, linked));
        if c != x {
            assert(old.children_of(p).contains(c));
            assert(new.meta_of(c) == old.meta_of(c));
        } else {
            if old.children_of(p).contains(x) {
                assert(direct_parents(om).contains(p));
            }
        }
    }
    assert forall|i: int| 0 <= i < new.range_children@.len() implies {
        let rc = #[trigger] new.range_children@[i];
        let mc = new.meta_of(rc.child_key);
        &&& new.cell_meta@.contains_key(rc.child_key)
        &&& drops_range(mc)
        &&& mc.parent1 == rc.start_key
        &&& mc.parent2 == rc.end_key
        &&& range_ordered(new, rc.start_key, rc.end_key)
    } by {
        let e = new.range_children@[i];
        assert(new.range_children@.contains(e));
        lemma_relinked_range_entries(old, new, x, m, linked, e);
        if old.range_children@.contains(e) && !(drops_range(om) && e.child_key == x) {
            let j = choose|j: int| 0 <= j < old.range_children@.len() && old.range_children@[j] == e;
            assert(old.range_children@[j] == e);
            if e.child_key == x {
                assert(drops_range(old.meta_of(old.range_children@[j].child_key)));
            }
        }
    }
    assert forall|p: i32, c: i32| #[trigger] edge(new, p, c) implies reeval_ok(new, c) by {
        if c != x {
            assert(edge(old, p, c));
            assert(reeval_ok(old, c));
            assert(new.meta_of(c) == old.meta_of(c));
            assert forall|r: int, cc: int| old.in_grid(r, cc) == new.in_grid(r, cc) by {}
        }
    }
    assert forall|p: i32, y: i32, k: i32| #[trigger] edge(new, p, y) && #[trigger] reads(new, y, k) implies edge(new, k, y) by {
        if y != x {
            assert(edge(old, p, y));
            assert(new.meta_of(y) == old.meta_of(y));
            assert(reads(old, y, k));
            assert(edge(old, k, y));
        }
    }

}


/// The range lies in the sheet, corners in order.
pub open spec fn range_valid(sheet: &Spreadsheet, r: Range) -> bool {
    &&& 0 <= r.start_row <= r.end_row < sheet.rows
    &&& 0 <= r.start_col <= r.end_col < sheet.cols
}

/// Every name is bound to a range of the sheet.
pub open spec fn names_ok(sheet: &Spreadsheet) -> bool {
    forall|n: Seq<char>| #[trigger] sheet.named_ranges.lookup(n) matches Some(r) ==> range_valid(sheet, r)
}

/// A sheet the commands can work on: well formed, with faithful dependencies and names
/// bound to ranges of the sheet.
pub open spec fn sheet_ok(sheet: &Spreadsheet) -> bool {
    &&& sheet.wf()
    &&& deps_ok(sheet)
    &&& names_ok(sheet)
    &&& ranges_unique(sheet.range_children@)
}

/// What an assignment asks of its cell.
pub enum Setting {
    /// The expression is refused with this status; nothing changes.
    Refused(CommandStatus),
    /// A plain number; the cell keeps no formula.
    Number(i32),
    /// `SLEEP` of a plain number: the cell takes the number and sleeps that long.
    SleepNumber(i32),
    /// A formula; `true` when it reads cells, whose dependencies are then recorded.
    Formula(CellMeta, bool),
}

/// What [`resolve_cell_reference`] gives for `s`: a name bound to a single cell gives that
/// cell, a name bound to a larger range is refused, and anything else is read as a cell
/// reference.
pub open spec fn resolve_spec(sheet: &Spreadsheet, s: Seq<char>) -> Result<(i16, i16), CommandStatus> {
    match sheet.named_ranges.lookup(s) {
        Some(r) => if r.start_row == r.end_row && r.start_col == r.end_col {
            Ok((r.start_row, r.start_col))
        } else {
            Err(CommandStatus::Unrecognized)
        },
        None => match cell_ref_spec(s, sheet.rows as int, sheet.cols as int) {
            Some(p) => Ok(p),
            None => Err(CommandStatus::Unrecognized),
        },
    }
}

/// An ASCII letter or digit, or `_`.
pub open spec fn is_word_char(c: char) -> bool {
    ('0' <= c <= '9') || ('A' <= c <= 'Z') || ('a' <= c <= 'z') || c == '_'
}

pub open spec fn all_word_chars(s: Seq<char>) -> bool {
    forall|i: int| 0 <= i < s.len() ==> is_word_char(#[trigger] s[i])
}

pub open spec fn is_op(c: char) -> bool {
    c == '+' || c == '-' || c == '*' || c == '/'
}

/// Index of the first operator at or after `i`, or -1.
pub open spec fn find_op(s: Seq<char>, i: int) -> int
    decreases s.len() - i,
{
    if i < 0 || i >= s.len() {
        -1
    } else if is_op(s[i]) {
        i
    } else {
        find_op(s, i + 1)
    }
}

/// The formula code of an operator: 10 `+`, 20 `-`, 40 `*`, 30 `/`.
pub open spec fn op_code(c: char) -> i16 {
    if c == '+' {
        10
    } else if c == '-' {
        20
    } else if c == '*' {
        40
    } else {
        30
    }
}

/// An operand of a binary expression: `(false, n)` for a number, `(true, key)` for a cell.
pub open spec fn operand_spec(sheet: &Spreadsheet, s: Seq<char>) -> Result<(bool, i32), CommandStatus> {
    match parse_i32_spec(s) {
        Some(v) => Ok((false, v)),
        None => match cell_ref_spec(s, sheet.rows as int, sheet.cols as int) {
            Some((r, c)) => Ok((true, sheet.key_of(r as int, c as int) as i32)),
            None => Err(CommandStatus::Unrecognized),
        },
    }
}

/// What a plain expression asks: a number; a cell reference or a name of one cell (code
/// 82); or `a op b` split at the first operator after the first character, whose operands
/// are numbers or cells, the code's last digit saying which are cells (0 both or neither,
/// 2 the left one, 3 the right one).
pub open spec fn arith_setting(sheet: &Spreadsheet, e: Seq<char>) -> Setting {
    if parse_i32_spec(e) is Some {
        Setting::Number(parse_i32_spec(e)->0)
    } else if all_word_chars(e) {
        match resolve_spec(sheet, e) {
            Ok((r, c)) => Setting::Formula(
                CellMeta { formula: 82i16, parent1: sheet.key_of(r as int, c as int) as i32, parent2: -1i32 },
                true,
            ),
            Err(st) => Setting::Refused(st),
        }
    } else {
        let i = find_op(e, 1);
        if i == -1 || i + 1 >= e.len() {
            Setting::Refused(CommandStatus::Unrecognized)
        } else {
            match operand_spec(sheet, e.subrange(0, i)) {
                Err(st) => Setting::Refused(st),
                Ok((lc, lv)) => match operand_spec(sheet, e.subrange(i + 1, e.len() as int)) {
                    Err(st) => Setting::Refused(st),
                    Ok((rc, rv)) => {
                        let code: int = op_code(e[i]) + if lc && rc {
                            0int
                        } else if lc {
                            2int
                        } else if rc {
                            3int
                        } else {
                            0int
                        };
                        Setting::Formula(CellMeta { formula: code as i16, parent1: lv, parent2: rv }, lc || rc)
                    },
                },
            }
        }
    }
}

/// What `SLEEP(s)` asks of the cell (row, col): sleeping for a cell's value (code 102),
/// refused for the cell itself, or sleeping for a number.
pub open spec fn sleep_setting(sheet: &Spreadsheet, row: i16, col: i16, s: Seq<char>) -> Setting {
    match cell_ref_spec(s, sheet.rows as int, sheet.cols as int) {
        Some((r, c)) => if r == row && c == col {
            Setting::Refused(CommandStatus::CircularRef)
        } else {
            Setting::Formula(
                CellMeta { formula: 102i16, parent1: sheet.key_of(r as int, c as int) as i32, parent2: -1i32 },
                true,
            )
        },
        None => match parse_i32_spec(s) {
            Some(v) => Setting::SleepNumber(v),
            None => Setting::Refused(CommandStatus::Unrecognized),
        },
    }
}

/// What a range function with code `code` asks when its argument starts at index `plen` of
/// `e`: `e` must end with `)`, and the argument is a name or a range of the sheet.
pub open spec fn range_setting(sheet: &Spreadsheet, code: i16, e: Seq<char>, plen: int) -> Setting {
    if e.last() != ')' {
        Setting::Refused(CommandStatus::Unrecognized)
    } else {
        let rs = e.subrange(plen, e.len() - 1);
        let r = match sheet.named_ranges.lookup(rs) {
            Some(r) => Some(r),
            None => range_spec(rs, sheet.rows as int, sheet.cols as int),
        };
        match r {
            Some(r) => Setting::Formula(
                CellMeta {
                    formula: code,
                    parent1: sheet.key_of(r.start_row as int, r.start_col as int) as i32,
                    parent2: sheet.key_of(r.end_row as int, r.end_col as int) as i32,
                },
                true,
            ),
            None => Setting::Refused(CommandStatus::Unrecognized),
        }
    }
}

/// `e` starts with the characters of `p`.
pub open spec fn has_prefix(e: Seq<char>, p: Seq<char>) -> bool {
    p.len() <= e.len() && e.subrange(0, p.len() as int) == p
}

/// What assigning `e` to the cell (row, col) asks: `SUM(..)` (5), `AVG(..)` (6), `MIN(..)`
/// (7), `MAX(..)` (8), `STDEV(..)` (9), `SLEEP(..)`, or a plain expression.
pub open spec fn formula_setting(sheet: &Spreadsheet, row: i16, col: i16, e: Seq<char>) -> Setting {
    if e.len() == 0 {
        Setting::Refused(CommandStatus::Unrecognized)
    } else if has_prefix(e, seq!['A', 'V', 'G', '(']) {
        range_setting(sheet, 6, e, 4)
    } else if has_prefix(e, seq!['M', 'I', 'N', '(']) {
        range_setting(sheet, 7, e, 4)
    } else if has_prefix(e, seq!['M', 'A', 'X', '(']) {
        range_setting(sheet, 8, e, 4)
    } else if has_prefix(e, seq!['S', 'U', 'M', '(']) {
        range_setting(sheet, 5, e, 4)
    } else if has_prefix(e, seq!['S', 'L', 'E', 'E', 'P', '(']) {
        if e.last() != ')' {
            Setting::Refused(CommandStatus::Unrecognized)
        } else {
            sleep_setting(sheet, row, col, e.subrange(6, e.len() - 1))
        }
    } else if has_prefix(e, seq!['S', 'T', 'D', 'E', 'V', '(']) {
        range_setting(sheet, 9, e, 6)
    } else {
        arith_setting(sheet, e)
    }
}

/// What evaluating the expression `e` into the cell (row, col) does: refused, and nothing
/// changes, or `CmdOk`, and the cell takes what `e` asks for.
pub open spec fn arithmetic_outcome(old: &Spreadsheet, new: &Spreadsheet, row: i16, col: i16, e: Seq<char>, st: CommandStatus) -> bool {
    let x = old.key_of(row as int, col as int) as i32;
    match arith_setting(old, e) {
        Setting::Refused(er) => st == er && *new == *old,
        s => st == CommandStatus::CmdOk && assigned(old, new, x, s, 0, 0),
    }
}

/// `new` is `old` after the cell `x` took the setting `s`, the sleep total going from `t0`
/// to `t1`. A formula that reads cells takes the value re-evaluation gives it; one on two
/// numbers takes their result.
pub open spec fn assigned(old: &Spreadsheet, new: &Spreadsheet, x: i32, s: Setting, t0: u64, t1: u64) -> bool {
    let mid = Spreadsheet { grid: old.grid, ..*new };
    match s {
        Setting::Number(v) => {
            &&& relinked(old, new, x, None, false)
            &&& new.grid@ == old.grid@.update(x as int, CellValue::Integer(v))
            &&& t1 == t0
        },
        Setting::SleepNumber(v) => {
            &&& relinked(old, new, x, None, false)
            &&& new.grid@ == old.grid@.update(x as int, CellValue::Integer(v))
            &&& t1 == if v >= 0 {
                add_sleep(t0, v as int)
            } else {
                t0
            }
        },
        Setting::Formula(m, linked) => {
            &&& relinked(old, new, x, Some(m), linked)
            &&& new.grid@ == old.grid@.update(x as int, new.grid@[x as int])
            &&& if linked {
                reeval_gives(&mid, x, new.grid@[x as int])
            } else {
                new.grid@[x as int] == binop(m.formula / 10, m.parent1, m.parent2)
            }
            &&& t1 == if m.formula == 102 {
                add_sleep(t0, reeval_sleep(&mid, x))
            } else {
                t0
            }
        },
        Setting::Refused(_) => false,
    }
}


/// Only the grid's values differ: the dependencies are as faithful in both.
pub(crate) proof fn lemma_deps_ok_grid(s1: &Spreadsheet, s2: &Spreadsheet)
    requires
        deps_ok(s1),
        s2.children == s1.children,
        s2.range_children == s1.range_children,
        s2.cell_meta == s1.cell_meta,
        s2.rows == s1.rows,
        s2.cols == s1.cols,
        s2.grid@.len() == s1.grid@.len(),
    ensures
        deps_ok(s2),
{
    assert forall|p: i32, c: i32| #[trigger] edge(s2, p, c) implies reeval_ok(s2, c) by {
        assert(edge(s1, p, c));
        assert(reeval_ok(s1, c));
        assert forall|r: int, cc: int| s1.in_grid(r, cc) == s2.in_grid(r, cc) by {}
    }
    assert forall|p: i32, y: i32, k: i32| #[trigger] edge(s2, p, y) && #[trigger] reads(s2, y, k) implies edge(s2, k, y) by {
        assert(edge(s1, p, y));
        assert(reads(s1, y, k));
    }
    assert(s2.children_finite());
    assert forall|p: i32, c: i32| #[trigger] s2.children_of(p).contains(c) implies s2.cell_meta@.contains_key(c)
        && direct_parents(s2.meta_of(c)).contains(p) by {
        assert(s1.children_of(p).contains(c));
    }
    assert(s2.dims_ok());
}

/// A sheet that differs from a good one only in what the commands do not rely on (the
/// viewport, output, locks, highlight, history) is good too.
pub proof fn lemma_sheet_ok_same(s1: &Spreadsheet, s2: &Spreadsheet)
    requires
        sheet_ok(s1),
        s2.grid == s1.grid,
        s2.children == s1.children,
        s2.range_children == s1.range_children,
        s2.cell_meta == s1.cell_meta,
        s2.named_ranges == s1.named_ranges,
        s2.rows == s1.rows,
        s2.cols == s1.cols,
        -10 <= s2.viewport_row < s2.rows,
        -10 <= s2.viewport_col < s2.cols,
        s2.last_edited matches Some((r, c)) ==> s2.valid_cell(r as int, c as int),
    ensures
        sheet_ok(s2),
{
    lemma_deps_ok_grid(s1, s2);
}

/// The dependencies are as faithful in a sheet with the same grid, formulas and records.
pub proof fn lemma_deps_ok_same(s1: &Spreadsheet, s2: &Spreadsheet)
    requires
        deps_ok(s1),
        s2.grid == s1.grid,
        s2.children == s1.children,
        s2.range_children == s1.range_children,
        s2.cell_meta == s1.cell_meta,
        s2.rows == s1.rows,
        s2.cols == s1.cols,
    ensures
        deps_ok(s2),
{
    lemma_deps_ok_grid(s1, s2);
}

/// The key of a cell of the sheet is an index of the grid.
pub proof fn lemma_cell_key(sheet: &Spreadsheet, r: int, c: int)
    requires
        sheet.dims_ok(),
        sheet.grid@.len() == sheet.rows * sheet.cols,
        0 <= r < sheet.rows,
        0 <= c < sheet.cols,
    ensures
        0 <= sheet.key_of(r, c) < sheet.grid@.len(),
        (sheet.key_of(r, c) as i32) as int == sheet.key_of(r, c),
        sheet.in_grid(r, c),
{
    crate::spreadsheet::lemma_key_roundtrip(r, c, sheet.rows as int, sheet.cols as int);
    assert(sheet.rows * sheet.cols <= 999 * 18278) by (nonlinear_arith)
        requires
            1 <= sheet.rows <= 999,
            1 <= sheet.cols <= 18278,
    ;
}

/// Resolves a cell reference, or a name bound to a single cell, to zero-based coordinates.
pub fn resolve_cell_reference(sheet: &Spreadsheet, s: &str) -> (r: Result<(i16, i16), CommandStatus>)
    requires
        sheet.dims_ok(),
        sheet.named_ranges.wf(),
    ensures
        r == resolve_spec(sheet, s@),
{
    match sheet.named_ranges.get(s) {
        Some(range) => {
            if range.start_row == range.end_row && range.start_col == range.end_col {
                Ok((range.start_row, range.start_col))
            } else {
                Err(CommandStatus::Unrecognized)
            }
        },
        None => parse_cell_reference(sheet, s),
    }
}

/// Reads an operand of a binary expression: a number, or a cell of the sheet as its key.
fn parse_operand(sheet: &Spreadsheet, t: &Vec<char>) -> (r: Result<(bool, i32), CommandStatus>)
    requires
        sheet.dims_ok(),
        sheet.grid@.len() == sheet.rows * sheet.cols,
    ensures
        r == operand_spec(sheet, t@),
        r matches Ok((true, k)) ==> 0 <= k < sheet.grid@.len(),
{
    proof {
        assert(t@.subrange(0, t@.len() as int) =~= t@);
    }
    match parse_i32_chars(t, 0, t.len()) {
        Some(v) => Ok((false, v)),
        None => match parse_cell_ref_chars(sheet, t, 0, t.len()) {
            Ok((r, c)) => {
                proof {
                    lemma_cell_key(sheet, r as int, c as int);
                }
                Ok((true, sheet.get_key(r, c)))
            },
            Err(st) => Err(st),
        },
    }
}

/// Whether every character is an ASCII letter or digit, or `_`.
fn word_chars(t: &Vec<char>) -> (b: bool)
    ensures
        b == all_word_chars(t@),
{
    let mut i: usize = 0;
    while i < t.len()
        invariant
            0 <= i <= t.len(),
            forall|j: int| 0 <= j < i ==> is_word_char(#[trigger] t@[j]),
        decreases t.len() - i,
    {
        let c = t[i];
        if !(('0' <= c && c <= '9') || ('A' <= c && c <= 'Z') || ('a' <= c && c <= 'z') || c == '_') {
            return false;
        }
        i += 1;
    }
    true
}

proof fn lemma_find_op(s: Seq<char>, i: int, j: int)
    requires
        0 <= i <= j <= s.len(),
        forall|k: int| i <= k < j ==> !is_op(#[trigger] s[k]),
    ensures
        j < s.len() && is_op(s[j]) ==> find_op(s, i) == j,
        j == s.len() ==> find_op(s, i) == -1,
    decreases j - i,
{
    if i < j {
        lemma_find_op(s, i + 1, j);
    }
}

/// Index of the first operator after the first character, if any.
fn op_position(t: &Vec<char>) -> (r: Option<usize>)
    ensures
        match r {
            Some(i) => i == find_op(t@, 1) && 1 <= i < t@.len(),
            None => find_op(t@, 1) == -1,
        },
{
    if t.len() <= 1 {
        return None;
    }
    let mut i: usize = 1;
    while i < t.len()
        invariant
            1 <= i <= t.len(),
            forall|k: int| 1 <= k < i ==> !is_op(#[trigger] t@[k]),
        decreases t.len() - i,
    {
        let c = t[i];
        if c == '+' || c == '-' || c == '*' || c == '/' {
            proof {
                lemma_find_op(t@, 1, i as int);
            }
            return Some(i);
        }
        i += 1;
    }
    proof {
        lemma_find_op(t@, 1, i as int);
    }
    None
}


proof fn lemma_relinked_grid(old: &Spreadsheet, mid: &Spreadsheet, new: &Spreadsheet, x: i32, m: Option<CellMeta>, linked: bool)
    requires
        relinked(old, mid, x, m, linked),
        *new == (Spreadsheet { grid: new.grid, ..*mid }),
        new.grid@.len() == mid.grid@.len(),
    ensures
        relinked(old, new, x, m, linked),
{
    assert forall|k: i32| #[trigger] new.children_of(k) == mid.children_of(k) by {}
}

/// Gives the cell (row, col) the formula `m`, recording the cells it reads when `linked`,
/// and the value `v`.
pub(crate) fn assign_formula(sheet: &mut Spreadsheet, row: i16, col: i16, m: CellMeta, linked: bool, v: CellValue)
    requires
        sheet_ok(old(sheet)),
        old(sheet).valid_cell(row as int, col as int),
        linked ==> recordable(m) && meta_readable(old(sheet), old(sheet).key_of(row as int, col as int) as i32, m),
        linked && reads_range(m) ==> range_ordered(old(sheet), m.parent1, m.parent2),
    ensures
        relinked(old(sheet), final(sheet), old(sheet).key_of(row as int, col as int) as i32, Some(m), linked),
        final(sheet).grid@ == old(sheet).grid@.update(old(sheet).key_of(row as int, col as int), v),
        sheet_ok(final(sheet)),
{
    let ghost x = old(sheet).key_of(row as int, col as int) as i32;
    proof {
        lemma_cell_key(old(sheet), row as int, col as int);
    }
    relink(sheet, row, col, Some(m), linked);
    let ghost mid = *sheet;
    proof {
        assert(mid.meta_of(x) == m);
        if linked {
            assert forall|r: int, c: int| old(sheet).in_grid(r, c) == mid.in_grid(r, c) by {}
            assert(reeval_ok(&mid, x));
        }
        lemma_relink_keeps(old(sheet), &mid, x, Some(m), linked);
    }
    *sheet.get_mut_cell(row, col) = v;
    proof {
        lemma_relinked_grid(old(sheet), &mid, sheet, x, Some(m), linked);
        lemma_deps_ok_grid(&mid, sheet);
        assert(sheet.named_ranges == old(sheet).named_ranges);
        assert(sheet.named_ranges == old(sheet).named_ranges);
    }
}

/// Makes the cell (row, col) hold the plain value `v`, without a formula.
pub fn assign_value(sheet: &mut Spreadsheet, row: i16, col: i16, v: CellValue)
    requires
        sheet_ok(old(sheet)),
        old(sheet).valid_cell(row as int, col as int),
    ensures
        relinked(old(sheet), final(sheet), old(sheet).key_of(row as int, col as int) as i32, None, false),
        final(sheet).grid@ == old(sheet).grid@.update(old(sheet).key_of(row as int, col as int), v),
        sheet_ok(final(sheet)),
{
    let ghost x = old(sheet).key_of(row as int, col as int) as i32;
    proof {
        lemma_cell_key(old(sheet), row as int, col as int);
    }
    relink(sheet, row, col, None, false);
    let ghost mid = *sheet;
    proof {
        lemma_relink_keeps(old(sheet), &mid, x, None, false);
    }
    *sheet.get_mut_cell(row, col) = v;
    proof {
        lemma_relinked_grid(old(sheet), &mid, sheet, x, None, false);
        lemma_deps_ok_grid(&mid, sheet);
        assert(sheet.named_ranges == old(sheet).named_ranges);
    }
}


/// On a code that is not negative, the digits that re-evaluation reads are the usual ones.
proof fn lemma_code_digits(code: i16)
    requires
        code >= 0,
    ensures
        formula_kind(code) == code % 10,
        crate::spreadsheet::tdiv(code as int, 10) == code / 10,
{
}

/// Evaluates a plain expression into the cell (row, col): a number; a cell reference or a
/// name bound to one cell; or `a op b` on numbers and cells, where `+`, `-` and `*` wrap
/// around and a division by zero (or of `i32::MIN` by -1) gives an error value, as does an
/// operand cell holding an error.
pub fn evaluate_arithmetic(sheet: &mut Spreadsheet, row: i16, col: i16, expr: &str) -> (st: CommandStatus)
    requires
        sheet_ok(old(sheet)),
        old(sheet).valid_cell(row as int, col as int),
    ensures
        arithmetic_outcome(old(sheet), final(sheet), row, col, expr@, st),
        sheet_ok(final(sheet)),
{
    let ghost x = old(sheet).key_of(row as int, col as int) as i32;
    let ghost e = expr@;
    proof {
        lemma_cell_key(old(sheet), row as int, col as int);
    }
    let t = chars_of(expr);
    if let Some(n) = parse_i32(expr) {
        assign_value(sheet, row, col, CellValue::Integer(n));
        return CommandStatus::CmdOk;
    }
    if word_chars(&t) {
        match resolve_cell_reference(sheet, expr) {
            Ok((tr, tc)) => {
                proof {
                    if sheet.named_ranges.lookup(e) is Some {
                        assert(range_valid(sheet, sheet.named_ranges.lookup(e)->0));
                    }
                    lemma_cell_key(sheet, tr as int, tc as int);
                }
                let rk = sheet.get_key(tr, tc);
                let v = *sheet.get_cell(tr, tc);
                let m = CellMeta { formula: 82, parent1: rk, parent2: -1 };
                proof {
                    lemma_code_digits(82);
                }
                assign_formula(sheet, row, col, m, true, v);
                proof {
                    let mid = Spreadsheet { grid: old(sheet).grid, ..*sheet };
                    assert(mid.meta_of(x) == m);
                    assert(!is_stdev_code(m.formula));
                    assert(reeval_value(&mid, x) == v);
                }
                return CommandStatus::CmdOk;
            },
            Err(st) => {
                return st;
            },
        }
    }
    let i = match op_position(&t) {
        Some(i) => i,
        None => {
            return CommandStatus::Unrecognized;
        },
    };
    if i + 1 >= t.len() {
        return CommandStatus::Unrecognized;
    }
    let left = sub_chars(&t, 0, i);
    let right = sub_chars(&t, i + 1, t.len());
    let (lc, lv) = match parse_operand(sheet, &left) {
        Ok(p) => p,
        Err(st) => {
            return st;
        },
    };
    let (rc, rv) = match parse_operand(sheet, &right) {
        Ok(p) => p,
        Err(st) => {
            return st;
        },
    };
    let opch = t[i];
    let base: i16 = if opch == '+' {
        10
    } else if opch == '-' {
        20
    } else if opch == '*' {
        40
    } else {
        30
    };
    let adjust: i16 = if lc && rc {
        0
    } else if lc {
        2
    } else if rc {
        3
    } else {
        0
    };
    let code: i16 = base + adjust;
    let a = if lc {
        *sheet.get_key_cell(lv)
    } else {
        CellValue::Integer(lv)
    };
    let b = if rc {
        *sheet.get_key_cell(rv)
    } else {
        CellValue::Integer(rv)
    };
    let v = match (a, b) {
        (CellValue::Integer(p), CellValue::Integer(q)) => apply_binop(base / 10, p, q),
        _ => CellValue::Error,
    };
    let m = CellMeta { formula: code, parent1: lv, parent2: rv };
    proof {
        lemma_code_digits(code);
        assert(code == op_code(e[i as int]) + adjust);
    }
    assign_formula(sheet, row, col, m, lc || rc, v);
    proof {
        let mid = Spreadsheet { grid: old(sheet).grid, ..*sheet };
        assert(mid.meta_of(x) == m);
        if lc || rc {
            assert(!is_stdev_code(m.formula));
            assert(reeval_value(&mid, x) == v);
        }
    }
    CommandStatus::CmdOk
}


/// Handles `SLEEP(expr)` for the cell (row, col): for a cell reference, the cell takes the
/// referenced value (code 102) and the sleep total grows by it when it is a number that is
/// not negative; for a number, the cell takes it without a formula and the total grows
/// likewise. A reference to the cell itself is refused as circular.
pub fn handle_sleep(sheet: &mut Spreadsheet, row: i16, col: i16, expr: &str, sleep_time: &mut u64) -> (st: CommandStatus)
    requires
        sheet_ok(old(sheet)),
        old(sheet).valid_cell(row as int, col as int),
    ensures
        ({
            let x = old(sheet).key_of(row as int, col as int) as i32;
            match sleep_setting(old(sheet), row, col, expr@) {
                Setting::Refused(e) => st == e && *final(sheet) == *old(sheet) && *final(sleep_time) == *old(sleep_time),
                s => st == CommandStatus::CmdOk && assigned(old(sheet), final(sheet), x, s, *old(sleep_time), *final(sleep_time)),
            }
        }),
        sheet_ok(final(sheet)),
{
    let ghost x = old(sheet).key_of(row as int, col as int) as i32;
    proof {
        lemma_cell_key(old(sheet), row as int, col as int);
    }
    match parse_cell_reference(sheet, expr) {
        Ok((tr, tc)) => {
            if row == tr && col == tc {
                return CommandStatus::CircularRef;
            }
            proof {
                lemma_cell_key(sheet, tr as int, tc as int);
                lemma_code_digits(102);
            }
            let pkey = sheet.get_key(tr, tc);
            let pv = *sheet.get_cell(tr, tc);
            let m = CellMeta { formula: 102, parent1: pkey, parent2: -1 };
            assign_formula(sheet, row, col, m, true, pv);
            if let CellValue::Integer(val) = pv {
                if val >= 0 {
                    *sleep_time = sleep_time.saturating_add(val as u64);
                }
            }
            proof {
                let mid = Spreadsheet { grid: old(sheet).grid, ..*sheet };
                assert(mid.meta_of(x) == m);
                assert(!is_stdev_code(m.formula));
                assert(reeval_value(&mid, x) == pv);
                assert(*old(sleep_time) == add_sleep(*old(sleep_time), 0));
            }
            CommandStatus::CmdOk
        },
        Err(_) => match parse_i32(expr) {
            Some(val) => {
                assign_value(sheet, row, col, CellValue::Integer(val));
                if val >= 0 {
                    *sleep_time = sleep_time.saturating_add(val as u64);
                }
                CommandStatus::CmdOk
            },
            None => CommandStatus::Unrecognized,
        },
    }
}


/// A range of the sheet can be read by every range function.
proof fn lemma_range_readable(sheet: &Spreadsheet, x: i32, code: i16, r: Range)
    requires
        sheet.dims_ok(),
        sheet.grid@.len() == sheet.rows * sheet.cols,
        0 <= x < sheet.grid@.len(),
        range_valid(sheet, r),
        5 <= code <= 9,
    ensures
        meta_readable(
            sheet,
            x,
            CellMeta {
                formula: code,
                parent1: sheet.key_of(r.start_row as int, r.start_col as int) as i32,
                parent2: sheet.key_of(r.end_row as int, r.end_col as int) as i32,
            },
        ),
        recordable(
            CellMeta {
                formula: code,
                parent1: sheet.key_of(r.start_row as int, r.start_col as int) as i32,
                parent2: sheet.key_of(r.end_row as int, r.end_col as int) as i32,
            },
        ),
{
    let p1 = sheet.key_of(r.start_row as int, r.start_col as int) as i32;
    let p2 = sheet.key_of(r.end_row as int, r.end_col as int) as i32;
    lemma_cell_key(sheet, r.start_row as int, r.start_col as int);
    lemma_cell_key(sheet, r.end_row as int, r.end_col as int);
    crate::spreadsheet::lemma_key_roundtrip(r.start_row as int, r.start_col as int, sheet.rows as int, sheet.cols as int);
    crate::spreadsheet::lemma_key_roundtrip(r.end_row as int, r.end_col as int, sheet.rows as int, sheet.cols as int);
    lemma_code_digits(code);
    assert(key_rect(sheet, p1, p2) == (r.start_row as int, r.end_row as int, r.start_col as int, r.end_col as int));
    assert forall|rr: int, cc: int| r.start_row <= rr <= r.end_row && r.start_col <= cc <= r.end_col implies #[trigger] sheet.in_grid(rr, cc) by {
        lemma_cell_key(sheet, rr, cc);
    }
    assert(range_ok(sheet, p1, p2));
    assert(1 <= (r.end_row - r.start_row + 1) * (r.end_col - r.start_col + 1) <= 999 * 18278) by (nonlinear_arith)
        requires
            0 <= r.start_row <= r.end_row < 999,
            0 <= r.start_col <= r.end_col < 18278,
    ;
    assert(count_ok(sheet, p1, p2));
}

/// Gives the cell (row, col) the range formula with code `code` (5 SUM, 6 AVG, 7 MIN,
/// 8 MAX, 9 STDEV) over `r`, and the value the function gives.
fn assign_range_formula(sheet: &mut Spreadsheet, row: i16, col: i16, code: i16, r: Range)
    requires
        sheet_ok(old(sheet)),
        old(sheet).valid_cell(row as int, col as int),
        range_valid(old(sheet), r),
        5 <= code <= 9,
    ensures
        ({
            let x = old(sheet).key_of(row as int, col as int) as i32;
            let m = CellMeta {
                formula: code,
                parent1: old(sheet).key_of(r.start_row as int, r.start_col as int) as i32,
                parent2: old(sheet).key_of(r.end_row as int, r.end_col as int) as i32,
            };
            &&& relinked(old(sheet), final(sheet), x, Some(m), true)
            &&& final(sheet).grid@ == old(sheet).grid@.update(x as int, final(sheet).grid@[x as int])
            &&& reeval_gives(&Spreadsheet { grid: old(sheet).grid, ..*final(sheet) }, x, final(sheet).grid@[x as int])
        }),
        sheet_ok(final(sheet)),
{
    let ghost x = old(sheet).key_of(row as int, col as int) as i32;
    proof {
        lemma_cell_key(old(sheet), row as int, col as int);
        lemma_cell_key(old(sheet), r.start_row as int, r.start_col as int);
        lemma_cell_key(old(sheet), r.end_row as int, r.end_col as int);
        lemma_range_readable(old(sheet), x, code, r);
    }
    let parent1 = sheet.get_key(r.start_row, r.start_col);
    let parent2 = sheet.get_key(r.end_row, r.end_col);
    let m = CellMeta { formula: code, parent1, parent2 };
    relink(sheet, row, col, Some(m), true);
    let ghost mid = *sheet;
    proof {
        assert(mid.meta_of(x) == m);
        assert forall|rr: int, c: int| old(sheet).in_grid(rr, c) == mid.in_grid(rr, c) by {}
        assert(reeval_ok(&mid, x));
        crate::spreadsheet::lemma_key_roundtrip(r.start_row as int, r.start_col as int, mid.rows as int, mid.cols as int);
        crate::spreadsheet::lemma_key_roundtrip(r.end_row as int, r.end_col as int, mid.rows as int, mid.cols as int);
        assert(range_ordered(&mid, parent1, parent2));
        lemma_relink_keeps(old(sheet), &mid, x, Some(m), true);
        lemma_code_digits(code);
    }
    if code == 5 {
        sum_value(sheet, row, col, parent1, parent2);
    } else if code == 6 {
        eval_avg(sheet, row, col, parent1, parent2);
    } else if code == 7 {
        eval_min(sheet, row, col, parent1, parent2);
    } else if code == 8 {
        eval_max(sheet, row, col, parent1, parent2);
    } else {
        eval_variance(sheet, row, col, parent1, parent2);
    }
    proof {
        lemma_relinked_grid(old(sheet), &mid, sheet, x, Some(m), true);
        lemma_deps_ok_grid(&mid, sheet);
        assert(sheet.named_ranges == old(sheet).named_ranges);
        assert(Spreadsheet { grid: old(sheet).grid, ..*sheet } == mid);
    }
}


/// An assignment that does not sleep leaves any sleep total as it is.
proof fn lemma_assigned_no_sleep(old: &Spreadsheet, new: &Spreadsheet, x: i32, s: Setting, t: u64)
    requires
        assigned(old, new, x, s, 0, 0),
        !(s is SleepNumber),
        s matches Setting::Formula(m, _) ==> m.formula != 102,
    ensures
        assigned(old, new, x, s, t, t),
{
}

proof fn lemma_range_setting_codes(sheet: &Spreadsheet, code: i16, e: Seq<char>, plen: int)
    ensures
        !(range_setting(sheet, code, e, plen) is SleepNumber),
        !(range_setting(sheet, code, e, plen) is Number),
        range_setting(sheet, code, e, plen) matches Setting::Formula(m, _) ==> m.formula == code,
{
}

/// No plain expression asks for `SLEEP`'s code.
proof fn lemma_arith_setting_codes(sheet: &Spreadsheet, e: Seq<char>)
    ensures
        !(arith_setting(sheet, e) is SleepNumber),
        arith_setting(sheet, e) matches Setting::Formula(m, _) ==> m.formula != 102,
{
}

/// The range function with code `code` whose argument starts at `plen`.
fn eval_range_function(sheet: &mut Spreadsheet, row: i16, col: i16, t: &Vec<char>, code: i16, plen: usize) -> (st: CommandStatus)
    requires
        sheet_ok(old(sheet)),
        old(sheet).valid_cell(row as int, col as int),
        5 <= code <= 9,
        1 <= plen <= t@.len(),
        t@[plen - 1] == '(',
    ensures
        ({
            let x = old(sheet).key_of(row as int, col as int) as i32;
            match range_setting(old(sheet), code, t@, plen as int) {
                Setting::Refused(e) => st == e && *final(sheet) == *old(sheet),
                s => st == CommandStatus::CmdOk && assigned(old(sheet), final(sheet), x, s, 0, 0),
            }
        }),
        sheet_ok(final(sheet)),
{
    if t[t.len() - 1] != ')' {
        return CommandStatus::Unrecognized;
    }
    let rs = sub_chars(t, plen, t.len() - 1);
    let name = string_of(&rs);
    let range = match sheet.named_ranges.get(name.as_str()) {
        Some(r) => r,
        None => match parse_range_chars(sheet, &rs) {
            Ok(r) => r,
            Err(st) => {
                return st;
            },
        },
    };
    proof {
        if sheet.named_ranges.lookup(rs@) is Some {
            assert(range_valid(sheet, sheet.named_ranges.lookup(rs@)->0));
        }
        lemma_code_digits(code);
    }
    assign_range_formula(sheet, row, col, code, range);
    CommandStatus::CmdOk
}

/// Evaluates an expression into the cell (row, col): `SUM`, `AVG`, `MIN`, `MAX` or `STDEV`
/// of a range or name, `SLEEP` of a cell or number, or a plain expression.
pub fn evaluate_formula(sheet: &mut Spreadsheet, row: i16, col: i16, expr: &str, sleep_time: &mut u64) -> (st: CommandStatus)
    requires
        sheet_ok(old(sheet)),
        old(sheet).valid_cell(row as int, col as int),
    ensures
        ({
            let x = old(sheet).key_of(row as int, col as int) as i32;
            match formula_setting(old(sheet), row, col, expr@) {
                Setting::Refused(e) => st == e && *final(sheet) == *old(sheet) && *final(sleep_time) == *old(sleep_time),
                s => st == CommandStatus::CmdOk && assigned(old(sheet), final(sheet), x, s, *old(sleep_time), *final(sleep_time)),
            }
        }),
        sheet_ok(final(sheet)),
{
    let t = chars_of(expr);
    proof {
        reveal_strlit("AVG(");
        reveal_strlit("MIN(");
        reveal_strlit("MAX(");
        reveal_strlit("SUM(");
        reveal_strlit("SLEEP(");
        reveal_strlit("STDEV(");
        assert("AVG("@ =~= seq!['A', 'V', 'G', '(']);
        assert("MIN("@ =~= seq!['M', 'I', 'N', '(']);
        assert("MAX("@ =~= seq!['M', 'A', 'X', '(']);
        assert("SUM("@ =~= seq!['S', 'U', 'M', '(']);
        assert("SLEEP("@ =~= seq!['S', 'L', 'E', 'E', 'P', '(']);
        assert("STDEV("@ =~= seq!['S', 'T', 'D', 'E', 'V', '(']);
    }
    if t.len() == 0 {
        return CommandStatus::Unrecognized;
    }
    if starts_with(&t, "AVG(") {
        let ghost s0 = *sheet;
        assert(t@[4 - 1] == t@.subrange(0, 4)[4 - 1]);
        let r = eval_range_function(sheet, row, col, &t, 6, 4);
        proof {
            lemma_range_setting_codes(&s0, 6, t@, 4);
            if !(range_setting(&s0, 6, t@, 4) is Refused) {
                lemma_assigned_no_sleep(&s0, sheet, s0.key_of(row as int, col as int) as i32, range_setting(&s0, 6, t@, 4), *sleep_time);
            }
        }
        return r;
    }
    if starts_with(&t, "MIN(") {
        let ghost s0 = *sheet;
        assert(t@[4 - 1] == t@.subrange(0, 4)[4 - 1]);
        let r = eval_range_function(sheet, row, col, &t, 7, 4);
        proof {
            lemma_range_setting_codes(&s0, 7, t@, 4);
            if !(range_setting(&s0, 7, t@, 4) is Refused) {
                lemma_assigned_no_sleep(&s0, sheet, s0.key_of(row as int, col as int) as i32, range_setting(&s0, 7, t@, 4), *sleep_time);
            }
        }
        return r;
    }
    if starts_with(&t, "MAX(") {
        let ghost s0 = *sheet;
        assert(t@[4 - 1] == t@.subrange(0, 4)[4 - 1]);
        let r = eval_range_function(sheet, row, col, &t, 8, 4);
        proof {
            lemma_range_setting_codes(&s0, 8, t@, 4);
            if !(range_setting(&s0, 8, t@, 4) is Refused) {
                lemma_assigned_no_sleep(&s0, sheet, s0.key_of(row as int, col as int) as i32, range_setting(&s0, 8, t@, 4), *sleep_time);
            }
        }
        return r;
    }
    if starts_with(&t, "SUM(") {
        let ghost s0 = *sheet;
        assert(t@[4 - 1] == t@.subrange(0, 4)[4 - 1]);
        let r = eval_range_function(sheet, row, col, &t, 5, 4);
        proof {
            lemma_range_setting_codes(&s0, 5, t@, 4);
            if !(range_setting(&s0, 5, t@, 4) is Refused) {
                lemma_assigned_no_sleep(&s0, sheet, s0.key_of(row as int, col as int) as i32, range_setting(&s0, 5, t@, 4), *sleep_time);
            }
        }
        return r;
    }
    if starts_with(&t, "SLEEP(") {
        if t[t.len() - 1] != ')' {
            return CommandStatus::Unrecognized;
        }
        let inner = sub_chars(&t, 6, t.len() - 1);
        let inner_s = string_of(&inner);
        return handle_sleep(sheet, row, col, inner_s.as_str(), sleep_time);
    }
    if starts_with(&t, "STDEV(") {
        let ghost s0 = *sheet;
        assert(t@[6 - 1] == t@.subrange(0, 6)[6 - 1]);
        let r = eval_range_function(sheet, row, col, &t, 9, 6);
        proof {
            lemma_range_setting_codes(&s0, 9, t@, 6);
            if !(range_setting(&s0, 9, t@, 6) is Refused) {
                lemma_assigned_no_sleep(&s0, sheet, s0.key_of(row as int, col as int) as i32, range_setting(&s0, 9, t@, 6), *sleep_time);
            }
        }
        return r;
    }
    let ghost s0 = *sheet;
    let r = evaluate_arithmetic(sheet, row, col, expr);
    proof {
        lemma_arith_setting_codes(&s0, expr@);
        if !(arith_setting(&s0, expr@) is Refused) {
            lemma_assigned_no_sleep(&s0, sheet, s0.key_of(row as int, col as int) as i32, arith_setting(&s0, expr@), *sleep_time);
        }
    }
    r
}


/// Whether the cell `x` has some recorded dependency.
pub open spec fn has_deps(sheet: &Spreadsheet, x: i32) -> bool {
    exists|p: i32| #[trigger] edge(sheet, p, x)
}

/// The earlier values kept for the cell with key `k`, oldest first.
pub open spec fn history_of(sheet: &Spreadsheet, k: i32) -> Seq<CellValue> {
    if sheet.cell_history@.contains_key(k) {
        sheet.cell_history@[k]@
    } else {
        Seq::empty()
    }
}

/// Whether `c` is recorded as reading `p` directly.
fn child_recorded(sheet: &Spreadsheet, p: i32, c: i32) -> (b: bool)
    ensures
        b == sheet.children_of(p).contains(c),
{
    match sheet.get_cell_children(p) {
        Some(set) => set.contains(&c),
        None => false,
    }
}

/// Whether some recorded range belongs to the cell `c`.
fn range_recorded(sheet: &Spreadsheet, c: i32) -> (b: bool)
    ensures
        b == exists|i: int| 0 <= i < sheet.range_children@.len() && (#[trigger] sheet.range_children@[i]).child_key == c,
{
    let mut i: usize = 0;
    while i < sheet.range_children.len()
        invariant
            0 <= i <= sheet.range_children@.len(),
            forall|j: int| 0 <= j < i ==> (#[trigger] sheet.range_children@[j]).child_key != c,
        decreases sheet.range_children@.len() - i,
    {
        if sheet.range_children[i].child_key == c {
            return true;
        }
        i += 1;
    }
    false
}

/// Whether the cell (row, col) has some recorded dependency.
fn has_dependencies(sheet: &Spreadsheet, row: i16, col: i16) -> (b: bool)
    requires
        deps_ok(sheet),
        sheet.valid_cell(row as int, col as int),
    ensures
        b == has_deps(sheet, sheet.key_of(row as int, col as int) as i32),
{
    let key = sheet.get_key(row, col);
    proof {
        lemma_cell_key(sheet, row as int, col as int);
        assert forall|p: i32| #[trigger] edge(sheet, p, key) implies sheet.cell_meta@.contains_key(key)
            && (sheet.children_of(p).contains(key) ==> direct_parents(sheet.meta_of(key)).contains(p))
            && (range_edge(sheet, p, key) ==> drops_range(sheet.meta_of(key))) by {
            if range_edge(sheet, p, key) {
                let i = choose|i: int|
                    0 <= i < sheet.range_children@.len() && (#[trigger] sheet.range_children@[i]).child_key == key
                        && sheet.key_in_range(p as int, sheet.range_children@[i].start_key as int, sheet.range_children@[i].end_key as int);
            }
        }
    }
    let m = match sheet.cell_meta.get(&key) {
        Some(m) => *m,
        None => {
            return false;
        },
    };
    if m.formula == -1 {
        return false;
    }
    let rem = rem10(m.formula);
    if rem == 0 || rem == 2 {
        let b = child_recorded(sheet, m.parent1, key);
        proof {
            if b {
                assert(edge(sheet, m.parent1, key));
            } else if has_deps(sheet, key) {
                let p = choose|p: i32| #[trigger] edge(sheet, p, key);
                assert(reeval_ok(sheet, key));
                assert(reads(sheet, key, m.parent1));
                assert(edge(sheet, m.parent1, key));
            }
        }
        return b;
    }
    if rem == 3 {
        let b = child_recorded(sheet, m.parent2, key);
        proof {
            if b {
                assert(edge(sheet, m.parent2, key));
            } else if has_deps(sheet, key) {
                let p = choose|p: i32| #[trigger] edge(sheet, p, key);
                assert(reeval_ok(sheet, key));
                assert(reads(sheet, key, m.parent2));
                assert(edge(sheet, m.parent2, key));
            }
        }
        return b;
    }
    if rem >= 5 && rem <= 9 {
        let b = range_recorded(sheet, key);
        proof {
            if b {
                let i = choose|i: int| 0 <= i < sheet.range_children@.len() && (#[trigger] sheet.range_children@[i]).child_key == key;
                let rc = sheet.range_children@[i];
                assert(range_ordered(sheet, rc.start_key, rc.end_key));
                assert(sheet.key_in_range(rc.start_key as int, rc.start_key as int, rc.end_key as int));
                assert(range_edge(sheet, rc.start_key, key));
                assert(edge(sheet, rc.start_key, key));
            }
        }
        return b;
    }
    false
}

/// Appends `v` to the earlier values kept for the cell with key `k`.
fn push_history(sheet: &mut Spreadsheet, k: i32, v: CellValue)
    ensures
        final(sheet).cell_history@.contains_key(k),
        final(sheet).cell_history@[k]@ == history_of(old(sheet), k).push(v),
        forall|j: i32| j != k ==> #[trigger] final(sheet).cell_history@.contains_key(j) == old(sheet).cell_history@.contains_key(j)
            && final(sheet).cell_history@[j] == old(sheet).cell_history@[j],
        *final(sheet) == (Spreadsheet { cell_history: final(sheet).cell_history, ..*old(sheet) }),
{
    let h = sheet.cell_history.entry(k).or_insert(Vec::new());
    h.push(v);
    proof {
        assert forall|j: i32| j != k implies #[trigger] sheet.cell_history@.contains_key(j) == old(sheet).cell_history@.contains_key(j)
            && sheet.cell_history@[j] == old(sheet).cell_history@[j] by {
            assert(sheet.cell_history@.dom().contains(j) == old(sheet).cell_history@.dom().contains(j));
        }
    }
}


/// What a refused assignment keeps: the values, the formulas, and which cells read which.
pub open spec fn same_dependencies(a: &Spreadsheet, b: &Spreadsheet) -> bool {
    forall|p: i32, c: i32| 0 <= p < a.grid@.len() ==> (#[trigger] edge(b, p, c) == edge(a, p, c))
}

/// No two recorded ranges belong to the same cell.
pub open spec fn ranges_unique(s: Seq<RangeChild>) -> bool {
    forall|i: int, j: int| 0 <= i < j < s.len() ==> (#[trigger] s[i]).child_key != (#[trigger] s[j]).child_key
}

/// The recorded ranges of the cells other than `x`, in order.
pub open spec fn ranges_of_others(s: Seq<RangeChild>, x: i32) -> Seq<RangeChild> {
    s.filter(|rc: RangeChild| rc.child_key != x)
}

/// The recorded ranges of the cell `x`, in order.
pub open spec fn ranges_of(s: Seq<RangeChild>, x: i32) -> Seq<RangeChild> {
    s.filter(|rc: RangeChild| rc.child_key == x)
}

/// Ranges none of which belongs to `x` are all ranges of other cells.
proof fn lemma_ranges_without(s: Seq<RangeChild>, x: i32)
    requires
        forall|i: int| 0 <= i < s.len() ==> (#[trigger] s[i]).child_key != x,
    ensures
        ranges_of_others(s, x) == s,
        ranges_of(s, x) == Seq::<RangeChild>::empty(),
    decreases s.len(),
{
    if s.len() > 0 {
        let d = s.drop_last();
        assert forall|i: int| 0 <= i < d.len() implies (#[trigger] d[i]).child_key != x by {
            assert(d[i] == s[i]);
        }
        lemma_ranges_without(d, x);
        assert(d.push(s.last()) =~= s);
        d.lemma_filter_push(s.last(), |rc: RangeChild| rc.child_key != x);
        d.lemma_filter_push(s.last(), |rc: RangeChild| rc.child_key == x);
        assert(s.last() == s[s.len() - 1]);
    } else {
        reveal_with_fuel(Seq::<_>::filter, 1);
    }
}

/// The ranges split into those of `x` and those of the other cells; taking out the ranges
/// of `x` keeps ranges unique, and a list of unique ranges holds at most one of `x`.
proof fn lemma_ranges_split(s: Seq<RangeChild>, x: i32)
    ensures
        s.to_multiset() == ranges_of_others(s, x).to_multiset().add(ranges_of(s, x).to_multiset()),
        ranges_unique(s) ==> ranges_unique(ranges_of_others(s, x)),
        ranges_unique(s) ==> ranges_of(s, x).len() <= 1,
        forall|i: int| 0 <= i < ranges_of_others(s, x).len() ==> (#[trigger] ranges_of_others(s, x)[i]).child_key != x,
    decreases s.len(),
{
    broadcast use vstd::seq_lib::group_to_multiset_ensures;
    broadcast use vstd::multiset::group_multiset_axioms;
    let o = ranges_of_others(s, x);
    assert forall|i: int| 0 <= i < o.len() implies (#[trigger] o[i]).child_key != x by {
        s.lemma_filter_pred(|rc: RangeChild| rc.child_key != x, i);
    }
    if s.len() == 0 {
        reveal_with_fuel(Seq::<_>::filter, 1);
        assert(s.to_multiset() =~= vstd::multiset::Multiset::<RangeChild>::empty());
        assert(ranges_of_others(s, x) =~= Seq::<RangeChild>::empty());
        assert(ranges_of(s, x) =~= Seq::<RangeChild>::empty());
        assert(ranges_of_others(s, x).to_multiset() =~= vstd::multiset::Multiset::<RangeChild>::empty());
        assert(ranges_of(s, x).to_multiset() =~= vstd::multiset::Multiset::<RangeChild>::empty());
    } else {
        let d = s.drop_last();
        let e = s.last();
        lemma_ranges_split(d, x);
        assert(d.push(e) =~= s);
        d.lemma_filter_push(e, |rc: RangeChild| rc.child_key != x);
        d.lemma_filter_push(e, |rc: RangeChild| rc.child_key == x);
        let od = ranges_of_others(d, x);
        let wd = ranges_of(d, x);
        assert(s.to_multiset() =~= d.to_multiset().insert(e));
        if e.child_key == x {
            assert(ranges_of(s, x) == wd.push(e));
            assert(ranges_of(s, x).to_multiset() =~= wd.to_multiset().insert(e));
            assert(s.to_multiset() =~= od.to_multiset().add(wd.to_multiset().insert(e)));
            if ranges_unique(s) {
                assert forall|i: int| 0 <= i < d.len() implies (#[trigger] d[i]).child_key != x by {
                    assert(s[i] == d[i]);
                    assert(s[s.len() - 1] == e);
                }
                lemma_ranges_without(d, x);
            }
        } else {
            assert(ranges_of_others(s, x) == od.push(e));
            assert(ranges_of_others(s, x).to_multiset() =~= od.to_multiset().insert(e));
            assert(s.to_multiset() =~= od.to_multiset().insert(e).add(wd.to_multiset()));
            if ranges_unique(s) {
                assert(ranges_unique(d)) by {
                    assert forall|i: int, j: int| 0 <= i < j < d.len() implies (#[trigger] d[i]).child_key != (#[trigger] d[j]).child_key by {
                        assert(s[i] == d[i] && s[j] == d[j]);
                    }
                }
                let so = ranges_of_others(s, x);
                assert forall|i: int, j: int| 0 <= i < j < so.len() implies (#[trigger] so[i]).child_key != (#[trigger] so[j]).child_key by {
                    if j == so.len() - 1 {
                        assert(so[j] == e);
                        assert(so[i] == od[i]);
                        assert(od.contains(od[i]));
                        d.lemma_filter_contains_rev(|rc: RangeChild| rc.child_key != x, od[i]);
                        let k = choose|k: int| 0 <= k < d.len() && d[k] == od[i];
                        assert(s[k] == d[k]);
                        assert(s[s.len() - 1] == e);
                    } else {
                        assert(so[i] == od[i] && so[j] == od[j]);
                    }
                }
            }
        }
    }
}

/// Undoing an assignment gives back the cells recorded as reading each cell directly.
proof fn lemma_rollback_children(old: &Spreadsheet, mid: &Spreadsheet, rolled: &Spreadsheet, x: i32, m: Option<CellMeta>, linked: bool, om: Option<CellMeta>, l: bool)
    requires
        sheet_ok(old),
        relinked(old, mid, x, m, linked),
        relinked(mid, rolled, x, om, l),
        om == (if old.cell_meta@.contains_key(x) { Some(old.cell_meta@[x]) } else { None::<CellMeta> }),
        l == has_deps(old, x),
    ensures
        forall|k: i32| #[trigger] rolled.children_of(k) == old.children_of(k),
{
    assert forall|k: i32| #[trigger] rolled.children_of(k) == old.children_of(k) by {
        let c = old.children_of(k);
        let om0 = old.meta_of(x);
        assert(mid.children_of(k) == relinked_children(c, k, x, om0, m, linked));
        assert(rolled.children_of(k) == relinked_children(mid.children_of(k), k, x, mid.meta_of(x), om, l));
        if c.contains(x) {
            assert(old.cell_meta@.contains_key(x) && direct_parents(om0).contains(k));
            assert(edge(old, k, x));
            assert(l);
        }
        if l && om is Some && direct_parents(om->0).contains(k) {
            let p = choose|p: i32| #[trigger] edge(old, p, x);
            assert(reeval_ok(old, x));
            assert(0 <= k < old.grid@.len());
            assert(reads(old, x, k));
            assert(edge(old, k, x));
            lemma_edge_reads_kind(old, k, x);
            assert(c.contains(x));
        }
        if mid.children_of(k).contains(x) && !(linked && m is Some && direct_parents(m->0).contains(k)) {
            assert(c.contains(x) && !direct_parents(om0).contains(k));
            assert(false);
        }
        assert(rolled.children_of(k) =~= c);
    }
}

/// Undoing an assignment gives back the recorded ranges, possibly in another order.
proof fn lemma_rollback_ranges(old: &Spreadsheet, mid: &Spreadsheet, rolled: &Spreadsheet, x: i32, m: Option<CellMeta>, linked: bool, om: Option<CellMeta>, l: bool)
    requires
        sheet_ok(old),
        relinked(old, mid, x, m, linked),
        deps_ok(mid),
        relinked(mid, rolled, x, om, l),
        om == (if old.cell_meta@.contains_key(x) { Some(old.cell_meta@[x]) } else { None::<CellMeta> }),
        l == has_deps(old, x),
    ensures
        rolled.range_children@.to_multiset() == old.range_children@.to_multiset(),
{
    let r = old.range_children@;
    lemma_relink_ranges_unique(old, mid, x, m, linked);
    lemma_relink_ranges_unique(mid, rolled, x, om, l);
    lemma_ranges_split(r, x);
    lemma_ranges_split(rolled.range_children@, x);
    let w = ranges_of(r, x);
    if w.len() == 1 {
        let e = w[0];
        r.lemma_filter_pred(|rc: RangeChild| rc.child_key == x, 0);
        assert(w.contains(e));
        r.lemma_filter_contains_rev(|rc: RangeChild| rc.child_key == x, e);
        let i = choose|i: int| 0 <= i < r.len() && r[i] == e;
        assert(old.cell_meta@.contains_key(r[i].child_key));
        let mm = old.meta_of(x);
        assert(drops_range(mm) && mm.parent1 == e.start_key && mm.parent2 == e.end_key);
        assert(range_ordered(old, e.start_key, e.end_key));
        assert(range_edge(old, e.start_key, x));
        assert(edge(old, e.start_key, x));
        assert(l);
        assert(ranges_of(rolled.range_children@, x) =~= w);
    } else {
        assert(w.len() == 0);
        if l && om is Some && reads_range(om->0) {
            let p = choose|p: i32| #[trigger] edge(old, p, x);
            lemma_edge_reads_kind(old, p, x);
            let i = choose|i: int|
                0 <= i < r.len() && (#[trigger] r[i]).child_key == x
                    && old.key_in_range(p as int, r[i].start_key as int, r[i].end_key as int);
            r.lemma_filter_contains(|rc: RangeChild| rc.child_key == x, i);
            assert(w.contains(r[i]));
            assert(false);
        }
        assert(ranges_of(rolled.range_children@, x) =~= w);
    }
}

/// Undoing an assignment that closed a ring: the cell gets back its old formula, its old
/// dependencies and its old value.
proof fn lemma_rollback(old: &Spreadsheet, mid: &Spreadsheet, rolled: &Spreadsheet, x: i32, m: Option<CellMeta>, linked: bool, om: Option<CellMeta>, l: bool)
    requires
        sheet_ok(old),
        0 <= x < old.grid@.len(),
        relinked(old, mid, x, m, linked),
        deps_ok(mid),
        relinked(mid, rolled, x, om, l),
        om == (if old.cell_meta@.contains_key(x) { Some(old.cell_meta@[x]) } else { None::<CellMeta> }),
        l == has_deps(old, x),
        ranges_unique(mid.range_children@),
    ensures
        deps_ok(rolled),
        ranges_unique(rolled.range_children@),
        rolled.range_children@.to_multiset() == old.range_children@.to_multiset(),
        forall|k: i32| #[trigger] rolled.children_of(k) == old.children_of(k),
        rolled.cell_meta@ == old.cell_meta@,
        same_dependencies(old, rolled),
        l ==> om is Some && recordable(om->0) && reeval_ok(rolled, x),
        l && reads_range(om->0) ==> range_ordered(rolled, om->0.parent1, om->0.parent2),
{
    lemma_relink_edges(old, mid, x, m, linked);
    assert(rolled.cell_meta@ =~= old.cell_meta@);
    assert(rolled.meta_of(x) == old.meta_of(x));
    assert forall|r: int, c: int| old.in_grid(r, c) == rolled.in_grid(r, c) by {}
    if l {
        let p = choose|p: i32| #[trigger] edge(old, p, x);
        lemma_edge_reads_kind(old, p, x);
        assert(reeval_ok(old, x));
        assert(reeval_ok(rolled, x));
        if reads_range(old.meta_of(x)) {
            let i = choose|i: int|
                0 <= i < old.range_children@.len() && (#[trigger] old.range_children@[i]).child_key == x
                    && old.key_in_range(p as int, old.range_children@[i].start_key as int, old.range_children@[i].end_key as int);
            assert(range_ordered(old, old.range_children@[i].start_key, old.range_children@[i].end_key));
        }
    }
    lemma_relink_keeps(mid, rolled, x, om, l);
    lemma_rollback_ranges(old, mid, rolled, x, m, linked, om, l);
    lemma_rollback_children(old, mid, rolled, x, m, linked, om, l);
    assert forall|p: i32, c: i32| 0 <= p < old.grid@.len() implies (#[trigger] edge(rolled, p, c) == edge(old, p, c)) by {
        if c == x {
            assert(edge(rolled, p, x) == (l && reads(rolled, x, p)));
            assert(reads(rolled, x, p) == reads(old, x, p));
            if edge(old, p, x) {
                lemma_edge_reads(old, p, x);
            }
            if l && reads(old, x, p) {
                let q = choose|q: i32| #[trigger] edge(old, q, x);
                assert(edge(old, q, x) && reads(old, x, p));
            }
        }
    }
}

/// What a recorded dependency says of the reader's formula.
pub(crate) proof fn lemma_edge_reads_kind(sheet: &Spreadsheet, p: i32, c: i32)
    requires
        deps_ok(sheet),
        edge(sheet, p, c),
    ensures
        sheet.cell_meta@.contains_key(c),
        recordable(sheet.meta_of(c)),
        range_edge(sheet, p, c) || sheet.children_of(p).contains(c),
        !sheet.children_of(p).contains(c) ==> drops_range(sheet.meta_of(c)),
        reads_range(sheet.meta_of(c)) ==> range_edge(sheet, p, c),
{
    let m = sheet.meta_of(c);
    if sheet.children_of(p).contains(c) {
        assert(direct_parents(m).contains(p));
    }
    if range_edge(sheet, p, c) {
        let i = choose|i: int|
            0 <= i < sheet.range_children@.len() && (#[trigger] sheet.range_children@[i]).child_key == c
                && sheet.key_in_range(p as int, sheet.range_children@[i].start_key as int, sheet.range_children@[i].end_key as int);
        assert(drops_range(sheet.meta_of(sheet.range_children@[i].child_key)));
    }
}


/// A refused expression is never answered `CmdOk` or `LockedCell`.
pub(crate) proof fn lemma_refusals(sheet: &Spreadsheet, row: i16, col: i16, e: Seq<char>)
    ensures
        formula_setting(sheet, row, col, e) matches Setting::Refused(err) ==> err != CommandStatus::CmdOk
            && err != CommandStatus::LockedCell,
{
    let i = find_op(e, 1);
    if i != -1 && i + 1 < e.len() {
        let l = operand_spec(sheet, e.subrange(0, i));
        let r = operand_spec(sheet, e.subrange(i + 1, e.len() as int));
    }
}

/// What assigning `e` to the cell (row, col) does, from `old` (sleep total `t0`) to `new`
/// (`t1`), answering `st`.
pub open spec fn set_outcome(old: &Spreadsheet, new: &Spreadsheet, row: i16, col: i16, e: Seq<char>, t0: u64, t1: u64, st: CommandStatus) -> bool {
    let x = old.key_of(row as int, col as int) as i32;
    if old.locked(row as int, col as int) {
        st == CommandStatus::LockedCell && *new == *old && t1 == t0
    } else {
        match formula_setting(old, row, col, e) {
            Setting::Refused(err) => st == err && *new == *old && t1 == t0,
            s => exists|mid: Spreadsheet, t: u64|
                #[trigger] assigned(old, &mid, x, s, t0, t) && sheet_ok(&mid) && if cycle_from(&mid, x) {
                    &&& st == CommandStatus::CircularRef
                    &&& new.grid@ == old.grid@
                    &&& new.cell_meta@ == old.cell_meta@
                    &&& same_dependencies(old, new)
                    &&& new.range_children@.to_multiset() == old.range_children@.to_multiset()
                    &&& forall|k: i32| #[trigger] new.children_of(k) == old.children_of(k)
                    &&& t1 == t
                    &&& *new == (Spreadsheet {
                        grid: new.grid,
                        children: new.children,
                        range_children: new.range_children,
                        cell_meta: new.cell_meta,
                        ..*old
                    })
                } else {
                    &&& st == CommandStatus::CmdOk
                    &&& reevaluated(
                        &mid,
                        &Spreadsheet { cell_history: mid.cell_history, last_edited: mid.last_edited, ..*new },
                        x,
                        t,
                        t1,
                    )
                    &&& new.cell_history@.contains_key(x)
                    &&& new.cell_history@[x]@ == history_of(old, x).push(old.grid@[x as int])
                    &&& forall|j: i32| j != x ==> #[trigger] new.cell_history@.contains_key(j)
                        == old.cell_history@.contains_key(j) && new.cell_history@[j] == old.cell_history@[j]
                    &&& *new == (Spreadsheet {
                        grid: new.grid,
                        cell_history: new.cell_history,
                        last_edited: Some((row, col)),
                        ..mid
                    })
                },
        }
    }
}

/// An assignment that took its setting, made no ring and recorded the old value in the
/// history answers `CmdOk` as [`set_outcome`] says.
#[verifier::spinoff_prover]
proof fn lemma_assigned_outcome(
    old: &Spreadsheet,
    new: &Spreadsheet,
    row: i16,
    col: i16,
    e: Seq<char>,
    t0: u64,
    t1: u64,
    mid: &Spreadsheet,
    t: u64,
)
    requires
        !old.locked(row as int, col as int),
        !(formula_setting(old, row, col, e) is Refused),
        ({
            let x = old.key_of(row as int, col as int) as i32;
            &&& assigned(old, mid, x, formula_setting(old, row, col, e), t0, t)
            &&& sheet_ok(mid)
            &&& !cycle_from(mid, x)
            &&& reevaluated(mid, &Spreadsheet { cell_history: mid.cell_history, last_edited: mid.last_edited, ..*new }, x, t, t1)
            &&& new.cell_history@.contains_key(x)
            &&& new.cell_history@[x]@ == history_of(old, x).push(old.grid@[x as int])
            &&& forall|j: i32| j != x ==> #[trigger] new.cell_history@.contains_key(j)
                == old.cell_history@.contains_key(j) && new.cell_history@[j] == old.cell_history@[j]
            &&& *new == (Spreadsheet { grid: new.grid, cell_history: new.cell_history, last_edited: Some((row, col)), ..*mid })
        }),
    ensures
        set_outcome(old, new, row, col, e, t0, t1, CommandStatus::CmdOk),
{
    let x = old.key_of(row as int, col as int) as i32;
    let s = formula_setting(old, row, col, e);
    assert(assigned(old, mid, x, s, t0, t) && sheet_ok(mid));
}

/// Assigns `expr` to the cell (row, col) and re-evaluates the cells that depend on it. A
/// locked cell is refused, and so is an expression that cannot be read. An assignment that
/// makes a cell depend on itself is undone (the cell gets back its formula, its dependencies
/// and its value) and answered `CircularRef`. Otherwise the cell's old value joins its
/// history and the cell becomes the last edited one.
#[verifier::spinoff_prover]
#[verifier::rlimit(40)]
pub fn set_cell_value(sheet: &mut Spreadsheet, row: i16, col: i16, expr: &str, sleep_time: &mut u64) -> (st: CommandStatus)
    requires
        sheet_ok(old(sheet)),
        old(sheet).valid_cell(row as int, col as int),
    ensures
        sheet_ok(final(sheet)),
        set_outcome(old(sheet), final(sheet), row, col, expr@, *old(sleep_time), *final(sleep_time), st),
{
    if sheet.is_cell_locked(row, col) {
        return CommandStatus::LockedCell;
    }
    let ghost s0 = *sheet;
    let ghost t0 = *sleep_time;
    let ghost x = s0.key_of(row as int, col as int) as i32;
    proof {
        lemma_cell_key(&s0, row as int, col as int);
    }
    let key = sheet.get_key(row, col);
    let old_meta: Option<CellMeta> = match sheet.cell_meta.get(&key) {
        Some(m) => Some(*m),
        None => None,
    };
    let had = has_dependencies(sheet, row, col);
    let old_value = *sheet.get_cell(row, col);
    proof {
        lemma_refusals(&s0, row, col, expr@);
    }
    let status = evaluate_formula(sheet, row, col, expr, sleep_time);
    if status == CommandStatus::CmdOk {
        let ghost mid = *sheet;
        let ghost t = *sleep_time;
        let ghost s = formula_setting(&s0, row, col, expr@);
        let ghost nm: Option<CellMeta> = match s {
            Setting::Formula(m, _) => Some(m),
            _ => None,
        };
        let ghost nl: bool = match s {
            Setting::Formula(_, l) => l,
            _ => false,
        };
        proof {
            assert(relinked(&s0, &mid, x, nm, nl));
            lemma_cell_key(&mid, row as int, col as int);
        }
        let cyc = toposort_reval_detect_cycle(sheet, row, col, sleep_time);
        if cyc {
            relink(sheet, row, col, old_meta, had);
            let ghost rolled = *sheet;
            *sheet.get_mut_cell(row, col) = old_value;
            proof {
                lemma_rollback(&s0, &mid, &rolled, x, nm, nl, old_meta, had);
                lemma_deps_ok_grid(&rolled, sheet);
                assert(sheet.grid@ =~= s0.grid@);
                assert(sheet.named_ranges == s0.named_ranges);
                assert(sheet_ok(&*sheet));
                assert(cycle_from(&mid, x));
                assert forall|p: i32, c: i32| 0 <= p < s0.grid@.len() implies (#[trigger] edge(&*sheet, p, c) == edge(&s0, p, c)) by {
                    assert(edge(&*sheet, p, c) == edge(&rolled, p, c));
                }
                assert forall|k: i32| #[trigger] sheet.children_of(k) == s0.children_of(k) by {
                    assert(sheet.children_of(k) == rolled.children_of(k));
                }
                assert(sheet.range_children@.to_multiset() == s0.range_children@.to_multiset());
                assert(assigned(&s0, &mid, x, s, t0, t) && sheet_ok(&mid));
            }
            return CommandStatus::CircularRef;
        } else {
            let ghost after = *sheet;
            push_history(sheet, key, old_value);
            sheet.set_last_edited(row, col);
            proof {
                lemma_deps_ok_grid(&mid, &after);
                lemma_deps_ok_grid(&after, &*sheet);
                assert(sheet.named_ranges == s0.named_ranges);
                assert(sheet_ok(&*sheet));
                assert(!cycle_from(&mid, x));
                assert(Spreadsheet { cell_history: mid.cell_history, last_edited: mid.last_edited, ..*sheet } == after);
                assert(history_of(&after, x) == history_of(&s0, x));
                assert(assigned(&s0, &mid, x, s, t0, t) && sheet_ok(&mid));
                assert(reevaluated(
                    &mid,
                    &Spreadsheet { cell_history: mid.cell_history, last_edited: mid.last_edited, ..*sheet },
                    x,
                    t,
                    *sleep_time,
                ));
                assert(*sheet == (Spreadsheet {
                    grid: sheet.grid,
                    cell_history: sheet.cell_history,
                    last_edited: Some((row, col)),
                    ..mid
                }));
                assert(sheet.cell_history@.contains_key(x));
                assert(sheet.cell_history@[x]@ == history_of(&s0, x).push(s0.grid@[x as int]));
                assert(forall|j: i32| j != x ==> #[trigger] sheet.cell_history@.contains_key(j)
                        == s0.cell_history@.contains_key(j) && sheet.cell_history@[j] == s0.cell_history@[j]);
                assert(!(s is Refused));
                assert(!s0.locked(row as int, col as int));
                lemma_assigned_outcome(&s0, &*sheet, row, col, expr@, t0, *sleep_time, &mid, t);
            }
        }
    } else {
        proof {
            assert(set_outcome(&s0, &*sheet, row, col, expr@, t0, *sleep_time, status));
        }
    }
    status
}


/// What setting the cell (row, col) straight to `v` does, from `old` (sleep total `t0`) to
/// `new` (`t1`), answering `st`: a locked cell is refused; otherwise the cell loses its
/// formula, takes `v`, the cells depending on it are re-evaluated (unless they depend on
/// each other in a ring, which leaves them as they are), and it becomes the last edited
/// cell.
pub open spec fn to_value_outcome(old: &Spreadsheet, new: &Spreadsheet, row: i16, col: i16, v: CellValue, t0: u64, t1: u64, st: CommandStatus) -> bool {
    let x = old.key_of(row as int, col as int) as i32;
    if old.locked(row as int, col as int) {
        st == CommandStatus::LockedCell && *new == *old && t1 == t0
    } else {
        exists|mid: Spreadsheet|
            #[trigger] relinked(old, &mid, x, None, false) && mid.grid@ == old.grid@.update(x as int, v) && {
                &&& st == CommandStatus::CmdOk
                &&& if cycle_from(&mid, x) {
                    *new == (Spreadsheet { last_edited: Some((row, col)), ..mid }) && t1 == t0
                } else {
                    &&& reevaluated(&mid, &Spreadsheet { last_edited: mid.last_edited, ..*new }, x, t0, t1)
                    &&& *new == (Spreadsheet { grid: new.grid, last_edited: Some((row, col)), ..mid })
                }
            }
    }
}

/// Sets the cell (row, col) straight to `value`, dropping its formula, and re-evaluates
/// the cells that depend on it; a locked cell is refused.
pub fn set_cell_to_value(sheet: &mut Spreadsheet, row: i16, col: i16, value: CellValue, sleep_time: &mut u64) -> (st: CommandStatus)
    requires
        sheet_ok(old(sheet)),
        old(sheet).valid_cell(row as int, col as int),
    ensures
        sheet_ok(final(sheet)),
        to_value_outcome(old(sheet), final(sheet), row, col, value, *old(sleep_time), *final(sleep_time), st),
{
    if sheet.is_cell_locked(row, col) {
        return CommandStatus::LockedCell;
    }
    let ghost s0 = *sheet;
    let ghost x = s0.key_of(row as int, col as int) as i32;
    assign_value(sheet, row, col, value);
    let ghost mid = *sheet;
    proof {
        lemma_cell_key(&s0, row as int, col as int);
    }
    let cyc = toposort_reval_detect_cycle(sheet, row, col, sleep_time);
    let ghost after = *sheet;
    sheet.set_last_edited(row, col);
    proof {
        lemma_deps_ok_grid(&mid, &*sheet);
        assert(sheet.named_ranges == s0.named_ranges);
        if !cyc {
            assert(Spreadsheet { last_edited: mid.last_edited, ..*sheet } == after);
        }
        assert(relinked(&s0, &mid, x, None, false) && mid.grid@ == s0.grid@.update(x as int, value));
    }
    CommandStatus::CmdOk
}

} // verus!
