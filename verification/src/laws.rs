//! What the commands promise about the sheet as a whole.
use vstd::prelude::*;
use crate::command::{after, history_outcome};
use crate::evaluator::{
    Setting, assigned, formula_setting, history_of, lemma_relink_edges, relinked, resolve_spec,
    same_dependencies, set_outcome, sheet_ok, to_value_outcome,
};
use crate::reevaluate_topo::reevaluated;
use crate::text::trim_spec;
use crate::graph::{cycle_from, edge, is_cycle, is_path, reaches};
use crate::reevaluate_topo::{deps_ok, lemma_reeval_frame, lemma_reeval_ok_same, reads, reeval_gives, reeval_ok};
use crate::evaluator::lemma_relink_keeps;
use crate::spreadsheet::{CommandStatus, Spreadsheet};

verus! {

/// No cells depend on each other in a ring.
pub open spec fn no_ring(sheet: &Spreadsheet) -> bool {
    forall|c: Seq<i32>| !#[trigger] is_cycle(sheet, c)
}

/// Every cell of a ring reads another cell, so it is a cell of the grid.
proof fn lemma_ring_cells(sheet: &Spreadsheet, c: Seq<i32>)
    requires
        deps_ok(sheet),
        is_cycle(sheet, c),
    ensures
        forall|i: int| 0 <= i < c.len() ==> 0 <= #[trigger] c[i] < sheet.grid@.len(),
{
    assert forall|i: int| 0 <= i < c.len() implies 0 <= #[trigger] c[i] < sheet.grid@.len() by {
        if i == 0 {
            assert(edge(sheet, c.last(), c[0]));
            assert(reeval_ok(sheet, c[0]));
        } else {
            assert(edge(sheet, c[i - 1], c[i]));
            assert(reeval_ok(sheet, c[i]));
        }
    }
}

/// A ring through the cell `x` can be reached from `x`.
proof fn lemma_ring_through(sheet: &Spreadsheet, c: Seq<i32>, j: int)
    requires
        is_cycle(sheet, c),
        0 <= j < c.len(),
    ensures
        cycle_from(sheet, c[j]),
{
    let x = c[j];
    let r = c.subrange(j, c.len() as int) + c.subrange(0, j);
    assert(r.len() == c.len());
    assert forall|i: int| 0 <= i < r.len() - 1 implies edge(sheet, #[trigger] r[i], r[i + 1]) by {
        if i + j < c.len() - 1 {
            assert(r[i] == c[i + j] && r[i + 1] == c[i + j + 1]);
        } else if i + j == c.len() - 1 {
            assert(r[i] == c.last() && r[i + 1] == c[0]);
        } else {
            assert(r[i] == c[i + j - c.len()] && r[i + 1] == c[i + j - c.len() + 1]);
        }
    }
    if j == 0 {
        assert(r.last() == c.last());
    } else {
        assert(r.last() == c[j - 1]);
        assert(edge(sheet, c[j - 1], c[j]));
    }
    assert(is_cycle(sheet, r));
    let p = r.push(x);
    assert forall|i: int| 0 <= i < p.len() - 1 implies edge(sheet, #[trigger] p[i], p[i + 1]) by {
        if i < r.len() - 1 {
            assert(p[i] == r[i] && p[i + 1] == r[i + 1]);
        } else {
            assert(p[i] == r.last() && p[i + 1] == r[0]);
        }
    }
    assert(is_path(sheet, p));
    assert(reaches(sheet, x, r[0]));
}

/// An assignment never makes cells depend on each other in a ring: a sheet without a ring
/// has none after it, whatever the assignment answers.
pub proof fn law_assignment_keeps_no_ring(
    old: &Spreadsheet,
    new: &Spreadsheet,
    row: i16,
    col: i16,
    e: Seq<char>,
    t0: u64,
    t1: u64,
    st: CommandStatus,
)
    requires
        sheet_ok(old),
        sheet_ok(new),
        set_outcome(old, new, row, col, e, t0, t1, st),
        no_ring(old),
    ensures
        no_ring(new),
{
    let x = old.key_of(row as int, col as int) as i32;
    if old.locked(row as int, col as int) {
    } else {
        let s = formula_setting(old, row, col, e);
        if !(s is Refused) {
            let (mid, t) = choose|mid: Spreadsheet, t: u64|
                #[trigger] assigned(old, &mid, x, s, t0, t) && sheet_ok(&mid) && if cycle_from(&mid, x) {
                    &&& st == CommandStatus::CircularRef
                    &&& new.grid@ == old.grid@
                    &&& new.cell_meta@ == old.cell_meta@
                    &&& same_dependencies(old, new)
                    &&& t1 == t
                    &&& *new == (Spreadsheet {
                        grid: new.grid,
                        children: new.children,
                        range_children: new.range_children,
                        cell_meta: new.cell_meta,
                        ..*old
                    })
                } else {
                    &&& st == CommandStatus::CmdOk
                    &&& crate::reevaluate_topo::reevaluated(
                        &mid,
                        &Spreadsheet { cell_history: mid.cell_history, last_edited: mid.last_edited, ..*new },
                        x,
                        t,
                        t1,
                    )
                    &&& new.cell_history@.contains_key(x)
                    &&& new.cell_history@[x]@ == crate::evaluator::history_of(old, x).push(old.grid@[x as int])
                    &&& forall|j: i32| j != x ==> #[trigger] new.cell_history@.contains_key(j)
                        == old.cell_history@.contains_key(j) && new.cell_history@[j] == old.cell_history@[j]
                    &&& *new == (Spreadsheet {
                        grid: new.grid,
                        cell_history: new.cell_history,
                        last_edited: Some((row, col)),
                        ..mid
                    })
                };
            assert forall|c: Seq<i32>| !#[trigger] is_cycle(new, c) by {
                if is_cycle(new, c) {
                    lemma_ring_cells(new, c);
                    if cycle_from(&mid, x) {
                        assert forall|i: int| 0 <= i < c.len() - 1 implies edge(old, #[trigger] c[i], c[i + 1]) by {
                            assert(edge(new, c[i], c[i + 1]));
                        }
                        assert(edge(new, c.last(), c[0]));
                        assert(edge(old, c.last(), c[0]));
                        assert(is_cycle(old, c));
                    } else {
                        let m: Option<crate::spreadsheet::CellMeta> = match s {
                            Setting::Formula(mm, _) => Some(mm),
                            _ => None,
                        };
                        let l: bool = match s {
                            Setting::Formula(_, ll) => ll,
                            _ => false,
                        };
                        assert(relinked(old, &mid, x, m, l));
                        lemma_relink_edges(old, &mid, x, m, l);
                        assert forall|p: i32, q: i32| #[trigger] edge(new, p, q) == edge(&mid, p, q) by {}
                        if exists|i: int| 0 <= i < c.len() && c[i] == x {
                            let j = choose|i: int| 0 <= i < c.len() && c[i] == x;
                            assert forall|i: int| 0 <= i < c.len() - 1 implies edge(&mid, #[trigger] c[i], c[i + 1]) by {
                                assert(edge(new, c[i], c[i + 1]));
                            }
                            assert(edge(&mid, c.last(), c[0]));
                            assert(is_cycle(&mid, c));
                            lemma_ring_through(&mid, c, j);
                        } else {
                            assert forall|i: int| 0 <= i < c.len() - 1 implies edge(old, #[trigger] c[i], c[i + 1]) by {
                                assert(edge(new, c[i], c[i + 1]));
                                assert(c[i + 1] != x);
                            }
                            assert(edge(new, c.last(), c[0]));
                            assert(c[0] != x);
                            assert(is_cycle(old, c));
                        }
                    }
                }
            }
        }
    }
}


/// An assignment refused as circular keeps the values, the formulas, which cells read
/// which, the cells recorded as reading each cell, and the recorded ranges (their order
/// aside).
pub proof fn law_refused_assignment_keeps(
    old: &Spreadsheet,
    new: &Spreadsheet,
    row: i16,
    col: i16,
    e: Seq<char>,
    t0: u64,
    t1: u64,
)
    requires
        set_outcome(old, new, row, col, e, t0, t1, CommandStatus::CircularRef),
    ensures
        new.grid@ == old.grid@,
        new.cell_meta@ == old.cell_meta@,
        same_dependencies(old, new),
        new.range_children@.to_multiset() == old.range_children@.to_multiset(),
        forall|k: i32| #[trigger] new.children_of(k) == old.children_of(k),
        new.locked_ranges == old.locked_ranges,
        new.named_ranges == old.named_ranges,
        new.cell_history == old.cell_history,
{
}

/// A cell that reaches itself through recorded dependencies lies on a ring it can reach.
pub(crate) proof fn lemma_self_reach(sheet: &Spreadsheet, x: i32)
    requires
        reaches(sheet, x, x),
    ensures
        cycle_from(sheet, x),
{
    let p = choose|p: Seq<i32>| p.len() >= 2 && p[0] == x && p.last() == x && #[trigger] is_path(sheet, p);
    let c = p.drop_last();
    assert forall|i: int| 0 <= i < c.len() - 1 implies edge(sheet, #[trigger] c[i], c[i + 1]) by {
        assert(c[i] == p[i] && c[i + 1] == p[i + 1]);
    }
    assert(edge(sheet, p[p.len() - 2], p[p.len() - 1]));
    assert(is_cycle(sheet, c));
}

/// Setting a cell straight to a value leaves it holding that value, unless it is locked.
pub proof fn law_set_to_value_holds(old: &Spreadsheet, new: &Spreadsheet, row: i16, col: i16, v: crate::cell::CellValue, t0: u64, t1: u64, st: CommandStatus)
    requires
        to_value_outcome(old, new, row, col, v, t0, t1, st),
        !old.locked(row as int, col as int),
        old.valid_cell(row as int, col as int),
        old.grid@.len() == old.rows * old.cols,
        old.dims_ok(),
    ensures
        st == CommandStatus::CmdOk,
        new.grid@[old.key_of(row as int, col as int)] == v,
{
    let x = old.key_of(row as int, col as int) as i32;
    crate::spreadsheet::lemma_key_roundtrip(row as int, col as int, old.rows as int, old.cols as int);
    assert(old.rows * old.cols <= 999 * 18278) by (nonlinear_arith)
        requires
            1 <= old.rows <= 999,
            1 <= old.cols <= 18278,
    ;
    let mid = choose|mid: Spreadsheet|
        #[trigger] relinked(old, &mid, x, None, false) && mid.grid@ == old.grid@.update(x as int, v) && {
            &&& st == CommandStatus::CmdOk
            &&& if cycle_from(&mid, x) {
                *new == (Spreadsheet { last_edited: Some((row, col)), ..mid }) && t1 == t0
            } else {
                &&& reevaluated(&mid, &Spreadsheet { last_edited: mid.last_edited, ..*new }, x, t0, t1)
                &&& *new == (Spreadsheet { grid: new.grid, last_edited: Some((row, col)), ..mid })
            }
        };
    if !cycle_from(&mid, x) {
        if reaches(&mid, x, x) {
            lemma_self_reach(&mid, x);
        }
        let n2 = Spreadsheet { last_edited: mid.last_edited, ..*new };
        assert(n2.grid@[x as int] == mid.grid@[x as int]);
    }
}

/// Asking for the history of a cell right after assigning it gives the cell back the value
/// it had before the assignment.
pub proof fn law_history_undoes_assignment(
    s0: &Spreadsheet,
    s1: &Spreadsheet,
    s2: &Spreadsheet,
    row: i16,
    col: i16,
    e: Seq<char>,
    cmd: Seq<char>,
    t0: u64,
    t1: u64,
    t2: u64,
    st2: CommandStatus,
)
    requires
        sheet_ok(s0),
        sheet_ok(s1),
        s0.valid_cell(row as int, col as int),
        set_outcome(s0, s1, row, col, e, t0, t1, CommandStatus::CmdOk),
        resolve_spec(s1, trim_spec(after(cmd, 8))) == Ok::<(i16, i16), CommandStatus>((row, col)),
        history_outcome(s1, s2, cmd, t1, t2, st2),
    ensures
        st2 == CommandStatus::CmdOk,
        s2.grid@[s0.key_of(row as int, col as int)] == s0.grid@[s0.key_of(row as int, col as int)],
{
    let x = s0.key_of(row as int, col as int) as i32;
    crate::spreadsheet::lemma_key_roundtrip(row as int, col as int, s0.rows as int, s0.cols as int);
    assert(s0.rows * s0.cols <= 999 * 18278) by (nonlinear_arith)
        requires
            1 <= s0.rows <= 999,
            1 <= s0.cols <= 18278,
    ;
    assert(!s0.locked(row as int, col as int));
    let s = formula_setting(s0, row, col, e);
    let (mid, t) = choose|mid: Spreadsheet, t: u64|
        #[trigger] assigned(s0, &mid, x, s, t0, t) && sheet_ok(&mid) && if cycle_from(&mid, x) {
            &&& CommandStatus::CmdOk == CommandStatus::CircularRef
            &&& s1.grid@ == s0.grid@
            &&& s1.cell_meta@ == s0.cell_meta@
            &&& same_dependencies(s0, s1)
            &&& t1 == t
            &&& *s1 == (Spreadsheet {
                grid: s1.grid,
                children: s1.children,
                range_children: s1.range_children,
                cell_meta: s1.cell_meta,
                ..*s0
            })
        } else {
            &&& CommandStatus::CmdOk == CommandStatus::CmdOk
            &&& reevaluated(
                &mid,
                &Spreadsheet { cell_history: mid.cell_history, last_edited: mid.last_edited, ..*s1 },
                x,
                t,
                t1,
            )
            &&& s1.cell_history@.contains_key(x)
            &&& s1.cell_history@[x]@ == history_of(s0, x).push(s0.grid@[x as int])
            &&& forall|j: i32| j != x ==> #[trigger] s1.cell_history@.contains_key(j)
                == s0.cell_history@.contains_key(j) && s1.cell_history@[j] == s0.cell_history@[j]
            &&& *s1 == (Spreadsheet {
                grid: s1.grid,
                cell_history: s1.cell_history,
                last_edited: Some((row, col)),
                ..mid
            })
        };
    let h = history_of(s1, x);
    assert(h == history_of(s0, x).push(s0.grid@[x as int]));
    assert(h.last() == s0.grid@[x as int]);
    let popped = choose|popped: Spreadsheet|
        #[trigger] to_value_outcome(&popped, s2, row, col, h.last(), t1, t2, st2)
            && popped == (Spreadsheet { cell_history: popped.cell_history, ..*s1 })
            && popped.cell_history@.contains_key(x)
            && popped.cell_history@[x]@ == h.drop_last()
            && forall|j: i32| j != x ==> #[trigger] popped.cell_history@.contains_key(j)
                == s1.cell_history@.contains_key(j) && popped.cell_history@[j] == s1.cell_history@[j];
    assert(popped.locked_ranges == s0.locked_ranges);
    assert(!popped.locked(row as int, col as int));
    law_set_to_value_holds(&popped, s2, row, col, h.last(), t1, t2, st2);
}

/// Every cell that reads a cell of the sheet through a recorded dependency holds the value
/// its formula gives for the current values.
pub open spec fn consistent(sheet: &Spreadsheet) -> bool {
    forall|p: i32, k: i32|
        0 <= p < sheet.grid@.len() && #[trigger] edge(sheet, p, k) ==> reeval_gives(sheet, k, sheet.grid@[k as int])
}

/// What re-evaluation gives a cell depends only on the grid, the size and the cell's formula.
proof fn lemma_reeval_same_meta(s1: &Spreadsheet, s2: &Spreadsheet, k: i32, v: crate::cell::CellValue)
    requires
        s1.grid@ == s2.grid@,
        s1.rows == s2.rows,
        s1.cols == s2.cols,
        s1.meta_of(k) == s2.meta_of(k),
    ensures
        reeval_gives(s1, k, v) == reeval_gives(s2, k, v),
{
}

/// A cell that a change of `x` reaches, or that reads `x`, when `x` reaches it or reads
/// itself: `x` would reach itself.
proof fn lemma_reach_step(sheet: &Spreadsheet, x: i32, q: i32)
    requires
        edge(sheet, q, x),
        q == x || reaches(sheet, x, q),
    ensures
        reaches(sheet, x, x),
{
    crate::dfs::lemma_reaches_step(sheet, x, q, x);
}

/// Two sheets with the same recorded dependencies and size have the same edges.
proof fn lemma_same_links_edges(s1: &Spreadsheet, s2: &Spreadsheet)
    requires
        s1.children == s2.children,
        s1.range_children == s2.range_children,
        s1.rows == s2.rows,
        s1.cols == s2.cols,
    ensures
        forall|p: i32, c: i32| #[trigger] edge(s1, p, c) == edge(s2, p, c),
{
    assert forall|p: i32, c: i32| #[trigger] edge(s1, p, c) == edge(s2, p, c) by {
        assert(s1.children_of(p) == s2.children_of(p));
        assert forall|i: int| 0 <= i < s1.range_children@.len() implies
            s1.key_in_range(p as int, (#[trigger] s1.range_children@[i]).start_key as int, s1.range_children@[i].end_key as int)
            == s2.key_in_range(p as int, s2.range_children@[i].start_key as int, s2.range_children@[i].end_key as int) by {}
    }
}

/// After an assignment that made no ring, a cell that reads another cell through a
/// recorded dependency holds the value its formula gives.
#[verifier::rlimit(60)]
proof fn lemma_relinked_cell_consistent(
    old: &Spreadsheet,
    mid: &Spreadsheet,
    fin: &Spreadsheet,
    x: i32,
    m: Option<crate::spreadsheet::CellMeta>,
    l: bool,
    t: u64,
    t1: u64,
    p: i32,
    k: i32,
)
    requires
        sheet_ok(old),
        deps_ok(mid),
        consistent(old),
        0 <= x < old.grid@.len(),
        relinked(old, mid, x, m, l),
        mid.grid@ == old.grid@.update(x as int, mid.grid@[x as int]),
        l ==> reeval_gives(&Spreadsheet { grid: old.grid, ..*mid }, x, mid.grid@[x as int]),
        !cycle_from(mid, x),
        reevaluated(mid, fin, x, t, t1),
        *fin == (Spreadsheet { grid: fin.grid, ..*mid }),
        fin.grid@.len() == mid.grid@.len(),
        0 <= p < fin.grid@.len(),
        edge(fin, p, k),
    ensures
        reeval_gives(fin, k, fin.grid@[k as int]),
{
    assert(relinked(old, mid, x, m, l));
    lemma_relink_edges(old, mid, x, m, l);
    let mid0 = Spreadsheet { grid: old.grid, ..*mid };
    assert(mid.grid@ == old.grid@.update(x as int, mid.grid@[x as int]));
    assert(edge(mid, p, k));
    assert(reeval_ok(mid, k));
    if reaches(mid, x, x) {
        lemma_self_reach(mid, x);
    }
    if reaches(mid, x, k) {
    } else if k == x {
        if !l {
            lemma_relink_keeps(old, mid, x, m, l);
            assert(false);
        }
        assert(fin.grid@[x as int] == mid.grid@[x as int]);
        lemma_reeval_ok_same(mid, &mid0, x);
        assert forall|q: i32| #[trigger] reads(&mid0, x, q) implies mid0.grid@[q as int] == fin.grid@[q as int] by {
            assert(reads(mid, x, q));
            assert(edge(mid, q, x));
            if q == x || reaches(mid, x, q) {
                lemma_reach_step(mid, x, q);
            }
        }
        lemma_reeval_frame(&mid0, fin, x, fin.grid@[x as int]);
    } else {
        assert(edge(old, p, k));
        assert(0 <= p < old.grid@.len());
        assert(reeval_gives(old, k, old.grid@[k as int]));
        assert(fin.grid@[k as int] == mid.grid@[k as int]);
        assert(mid0.meta_of(k) == old.meta_of(k));
        lemma_reeval_same_meta(old, &mid0, k, old.grid@[k as int]);
        lemma_reeval_ok_same(mid, &mid0, k);
        assert forall|q: i32| #[trigger] reads(&mid0, k, q) implies mid0.grid@[q as int] == fin.grid@[q as int] by {
            assert(reads(mid, k, q));
            assert(edge(mid, q, k));
            if q == x {
                assert(crate::graph::is_path(mid, seq![x, k]));
                assert(reaches(mid, x, k));
            } else if reaches(mid, x, q) {
                crate::dfs::lemma_reaches_step(mid, x, q, k);
            }
        }
        lemma_reeval_frame(&mid0, fin, k, old.grid@[k as int]);
    }
}

/// An assignment keeps every cell that reads another cell holding the value its formula
/// gives: a sheet where that holds still has it after the assignment, whatever the
/// assignment answers.
pub proof fn law_assignment_keeps_consistent(
    old: &Spreadsheet,
    new: &Spreadsheet,
    row: i16,
    col: i16,
    e: Seq<char>,
    t0: u64,
    t1: u64,
    st: CommandStatus,
)
    requires
        sheet_ok(old),
        sheet_ok(new),
        old.valid_cell(row as int, col as int),
        set_outcome(old, new, row, col, e, t0, t1, st),
        consistent(old),
    ensures
        consistent(new),
{
    let x = old.key_of(row as int, col as int) as i32;
    crate::spreadsheet::lemma_key_roundtrip(row as int, col as int, old.rows as int, old.cols as int);
    assert(old.rows * old.cols <= 999 * 18278) by (nonlinear_arith)
        requires
            1 <= old.rows <= 999,
            1 <= old.cols <= 18278,
    ;
    if old.locked(row as int, col as int) {
    } else {
        let s = formula_setting(old, row, col, e);
        if !(s is Refused) {
            let (mid, t) = choose|mid: Spreadsheet, t: u64|
                #[trigger] assigned(old, &mid, x, s, t0, t) && sheet_ok(&mid) && if cycle_from(&mid, x) {
                    &&& st == CommandStatus::CircularRef
                    &&& new.grid@ == old.grid@
                    &&& new.cell_meta@ == old.cell_meta@
                    &&& same_dependencies(old, new)
                    &&& t1 == t
                    &&& *new == (Spreadsheet {
                        grid: new.grid,
                        children: new.children,
                        range_children: new.range_children,
                        cell_meta: new.cell_meta,
                        ..*old
                    })
                } else {
                    &&& st == CommandStatus::CmdOk
                    &&& crate::reevaluate_topo::reevaluated(
                        &mid,
                        &Spreadsheet { cell_history: mid.cell_history, last_edited: mid.last_edited, ..*new },
                        x,
                        t,
                        t1,
                    )
                    &&& new.cell_history@.contains_key(x)
                    &&& new.cell_history@[x]@ == crate::evaluator::history_of(old, x).push(old.grid@[x as int])
                    &&& forall|j: i32| j != x ==> #[trigger] new.cell_history@.contains_key(j)
                        == old.cell_history@.contains_key(j) && new.cell_history@[j] == old.cell_history@[j]
                    &&& *new == (Spreadsheet {
                        grid: new.grid,
                        cell_history: new.cell_history,
                        last_edited: Some((row, col)),
                        ..mid
                    })
                };
            if cycle_from(&mid, x) {
                assert forall|p: i32, k: i32|
                    0 <= p < new.grid@.len() && #[trigger] edge(new, p, k) implies reeval_gives(new, k, new.grid@[k as int]) by {
                    assert(edge(old, p, k));
                    assert(new.meta_of(k) == old.meta_of(k));
                    lemma_reeval_same_meta(old, new, k, new.grid@[k as int]);
                }
            } else {
                let fin = Spreadsheet { cell_history: mid.cell_history, last_edited: mid.last_edited, ..*new };
                assert(fin == Spreadsheet { grid: fin.grid, ..mid });
                lemma_same_links_edges(&fin, new);
                assert forall|p: i32, k: i32|
                    0 <= p < new.grid@.len() && #[trigger] edge(new, p, k) implies reeval_gives(new, k, new.grid@[k as int]) by {
                    assert(edge(&fin, p, k));
                    assert(fin.meta_of(k) == new.meta_of(k));
                    lemma_reeval_same_meta(&fin, new, k, new.grid@[k as int]);
                    let m: Option<crate::spreadsheet::CellMeta> = match s {
                        Setting::Formula(mm, _) => Some(mm),
                        _ => None,
                    };
                    let l: bool = match s {
                        Setting::Formula(_, ll) => ll,
                        _ => false,
                    };
                    assert(relinked(old, &mid, x, m, l));
                    assert(mid.grid@ == old.grid@.update(x as int, mid.grid@[x as int]));
                    lemma_relinked_cell_consistent(old, &mid, &fin, x, m, l, t, t1, p, k);
                }
            }
        }
    }
}

/// Giving `x` a plain value makes no ring: no cell reads `x` any more, and every other
/// dependency was there before.
proof fn lemma_plain_no_ring(old: &Spreadsheet, mid: &Spreadsheet, x: i32)
    requires
        deps_ok(old),
        relinked(old, mid, x, None, false),
        no_ring(old),
    ensures
        deps_ok(mid),
        no_ring(mid),
        !cycle_from(mid, x),
{
    lemma_relink_keeps(old, mid, x, None, false);
    assert(!mid.cell_meta@.contains_key(x));
    assert forall|p: i32| !#[trigger] edge(mid, p, x) by {
        if edge(mid, p, x) {
            assert(reeval_ok(mid, x));
        }
    }
    assert forall|c: Seq<i32>| !#[trigger] is_cycle(mid, c) by {
        if is_cycle(mid, c) {
            assert forall|i: int| 0 <= i < c.len() - 1 implies edge(old, #[trigger] c[i], c[i + 1]) by {
                assert(edge(mid, c[i], c[i + 1]));
                assert(c[i + 1] != x);
            }
            assert(edge(mid, c.last(), c[0]));
            assert(c[0] != x);
            assert(edge(old, c.last(), c[0]));
            assert(is_cycle(old, c));
        }
    }
}

/// Setting a cell straight to a value (as `history` does) keeps every cell that reads
/// another cell holding the value its formula gives, on a sheet where that holds and no
/// cells depend on each other in a ring.
pub proof fn law_set_to_value_keeps_consistent(
    old: &Spreadsheet,
    new: &Spreadsheet,
    row: i16,
    col: i16,
    v: crate::cell::CellValue,
    t0: u64,
    t1: u64,
    st: CommandStatus,
)
    requires
        sheet_ok(old),
        sheet_ok(new),
        old.valid_cell(row as int, col as int),
        to_value_outcome(old, new, row, col, v, t0, t1, st),
        consistent(old),
        no_ring(old),
    ensures
        consistent(new),
        no_ring(new),
{
    let x = old.key_of(row as int, col as int) as i32;
    crate::spreadsheet::lemma_key_roundtrip(row as int, col as int, old.rows as int, old.cols as int);
    assert(old.rows * old.cols <= 999 * 18278) by (nonlinear_arith)
        requires
            1 <= old.rows <= 999,
            1 <= old.cols <= 18278,
    ;
    if !old.locked(row as int, col as int) {
        let mid = choose|mid: Spreadsheet|
            #[trigger] relinked(old, &mid, x, None, false) && mid.grid@ == old.grid@.update(x as int, v) && {
                &&& st == CommandStatus::CmdOk
                &&& if cycle_from(&mid, x) {
                    *new == (Spreadsheet { last_edited: Some((row, col)), ..mid }) && t1 == t0
                } else {
                    &&& reevaluated(&mid, &Spreadsheet { last_edited: mid.last_edited, ..*new }, x, t0, t1)
                    &&& *new == (Spreadsheet { grid: new.grid, last_edited: Some((row, col)), ..mid })
                }
            };
        lemma_plain_no_ring(old, &mid, x);
        let fin = Spreadsheet { last_edited: mid.last_edited, ..*new };
        assert(fin == Spreadsheet { grid: fin.grid, ..mid });
        lemma_same_links_edges(&fin, new);
        lemma_same_links_edges(&mid, new);
        assert(mid.grid@ == old.grid@.update(x as int, mid.grid@[x as int]));
        assert forall|p: i32, k: i32|
            0 <= p < new.grid@.len() && #[trigger] edge(new, p, k) implies reeval_gives(new, k, new.grid@[k as int]) by {
            assert(edge(&fin, p, k));
            assert(fin.meta_of(k) == new.meta_of(k));
            lemma_reeval_same_meta(&fin, new, k, new.grid@[k as int]);
            lemma_relinked_cell_consistent(old, &mid, &fin, x, None, false, t0, t1, p, k);
        }
        assert forall|c: Seq<i32>| !#[trigger] is_cycle(new, c) by {
            if is_cycle(new, c) {
                assert forall|i: int| 0 <= i < c.len() - 1 implies edge(&mid, #[trigger] c[i], c[i + 1]) by {
                    assert(edge(new, c[i], c[i + 1]));
                }
                assert(edge(new, c.last(), c[0]));
                assert(is_cycle(&mid, c));
            }
        }
    }
}

/// An assignment is answered `LockedCell` exactly when its cell is locked, and then nothing
/// changes.
pub proof fn law_locked_iff_refused(
    old: &Spreadsheet,
    new: &Spreadsheet,
    row: i16,
    col: i16,
    e: Seq<char>,
    t0: u64,
    t1: u64,
    st: CommandStatus,
)
    requires
        set_outcome(old, new, row, col, e, t0, t1, st),
    ensures
        (st == CommandStatus::LockedCell) <==> old.locked(row as int, col as int),
        old.locked(row as int, col as int) ==> *new == *old && t1 == t0,
{
    crate::evaluator::lemma_refusals(old, row, col, e);
}

/// A cell inside a range that was just locked refuses every assignment: the answer is
/// `LockedCell` and the sheet stays as it was.
pub proof fn law_locked_cell_refuses(
    s0: &Spreadsheet,
    s1: &Spreadsheet,
    s2: &Spreadsheet,
    r: crate::formula::Range,
    row: i16,
    col: i16,
    e: Seq<char>,
    t0: u64,
    t1: u64,
    st: CommandStatus,
)
    requires
        s1.locked_ranges@ == s0.locked_ranges@.push(r),
        r.contains(row as int, col as int),
        set_outcome(s1, s2, row, col, e, t0, t1, st),
    ensures
        st == CommandStatus::LockedCell,
        *s2 == *s1,
        t1 == t0,
{
    assert(s1.locked_ranges@[s0.locked_ranges@.len() as int] == r);
    assert(s1.locked(row as int, col as int));
}

/// Unlocking a range right after locking it, when it was not locked before, leaves every
/// cell locked or not as it was.
pub proof fn law_unlock_undoes_lock(s0: &Spreadsheet, s1: &Spreadsheet, s2: &Spreadsheet, r: crate::formula::Range)
    requires
        s1.locked_ranges@ == s0.locked_ranges@.push(r),
        s2.locked_ranges@ == s1.locked_ranges@.filter(|x: crate::formula::Range| x != r),
        !s0.locked_ranges@.contains(r),
    ensures
        s2.locked_ranges@ == s0.locked_ranges@,
        forall|row: int, col: int| s2.locked(row, col) == s0.locked(row, col),
{
    let f = |x: crate::formula::Range| x != r;
    assert(s0.locked_ranges@.push(r).drop_last() =~= s0.locked_ranges@);
    reveal_with_fuel(Seq::<_>::filter, 1);
    assert(s0.locked_ranges@.filter(f) =~= s0.locked_ranges@) by {
        lemma_filter_all(s0.locked_ranges@, r);
    }
    assert(s2.locked_ranges@ =~= s0.locked_ranges@);
}

/// Keeping the ranges other than `r` keeps every range of a list without `r`.
proof fn lemma_filter_all(s: Seq<crate::formula::Range>, r: crate::formula::Range)
    requires
        !s.contains(r),
    ensures
        s.filter(|x: crate::formula::Range| x != r) == s,
    decreases s.len(),
{
    reveal_with_fuel(Seq::<_>::filter, 1);
    if s.len() > 0 {
        assert(!s.drop_last().contains(r)) by {
            if s.drop_last().contains(r) {
                let i = choose|i: int| 0 <= i < s.drop_last().len() && s.drop_last()[i] == r;
                assert(s[i] == r);
            }
        }
        lemma_filter_all(s.drop_last(), r);
        assert(s.last() != r) by {
            if s.last() == r {
                assert(s[s.len() - 1] == r);
            }
        }
        assert(s.drop_last().push(s.last()) =~= s);
    }
}

} // verus!
