//! The commands of the command line.
use vstd::prelude::*;
use crate::cell::{CellValue, cell_ref_spec, parse_cell_ref_chars};
use crate::evaluator::{
    lemma_sheet_ok_same,
    has_prefix, history_of, names_ok, range_valid, resolve_cell_reference, resolve_spec,
    set_cell_to_value, set_cell_value, set_outcome, sheet_ok, to_value_outcome,
};
use crate::extensions::{formula_text, get_formula_string};
use crate::formula::{Range, find_char, find_from, parse_range_chars, range_spec};
use crate::spreadsheet::{CommandStatus, HighlightType, Spreadsheet, scrolled_col, scrolled_row};
use crate::text::{find_ws, first_ws, starts_with, string_of, sub_chars, trim_bounds, trim_spec, two_words, chars_of, text_is};

verus! {

broadcast use vstd::std_specs::hash::group_hash_axioms;

/// What a command asks the caller to show.
pub enum CommandOutput {
    /// Nothing to show.
    Nothing,
    /// A line of text, such as a cell's formula.
    Text(String),
    /// The relationships of the cell (row, col).
    Visual(i16, i16),
}

/// `t` from index `n` on.
pub open spec fn after(t: Seq<char>, n: int) -> Seq<char> {
    t.subrange(n, t.len() as int)
}

/// The range a lock or unlock command names: a range when the target holds `:`, else a
/// cell or a name bound to one cell.
pub open spec fn lock_target(sheet: &Spreadsheet, target: Seq<char>) -> Result<Range, CommandStatus> {
    if find_from(target, ':', 0) != -1 {
        match range_spec(target, sheet.rows as int, sheet.cols as int) {
            Some(r) => Ok(r),
            None => Err(CommandStatus::Unrecognized),
        }
    } else {
        match resolve_spec(sheet, target) {
            Ok((r, c)) => Ok(Range { start_row: r, start_col: c, end_row: r, end_col: c }),
            Err(e) => Err(e),
        }
    }
}

/// The range a `name` command binds its name to: a range, else a single cell.
pub open spec fn name_target(sheet: &Spreadsheet, target: Seq<char>) -> Option<Range> {
    match range_spec(target, sheet.rows as int, sheet.cols as int) {
        Some(r) => Some(r),
        None => match cell_ref_spec(target, sheet.rows as int, sheet.cols as int) {
            Some((r, c)) => Some(Range { start_row: r, start_col: c, end_row: r, end_col: c }),
            None => None,
        },
    }
}

/// Which highlight a command `HLP `, `HLC ` or `HLPC ` asks for, and where its cell starts.
pub open spec fn highlight_command(t: Seq<char>) -> Option<(HighlightType, int)> {
    if has_prefix(t, "HLP "@) {
        Some((HighlightType::Parent, 4))
    } else if has_prefix(t, "HLC "@) {
        Some((HighlightType::Child, 4))
    } else if has_prefix(t, "HLPC "@) {
        Some((HighlightType::Both, 5))
    } else {
        None
    }
}

/// What `lock_cell target` does.
pub open spec fn lock_outcome(old: &Spreadsheet, new: &Spreadsheet, t: Seq<char>, st: CommandStatus) -> bool {
    match lock_target(old, trim_spec(after(t, 10))) {
        Ok(r) => st == CommandStatus::CmdOk && *new == (Spreadsheet { locked_ranges: new.locked_ranges, ..*old })
            && new.locked_ranges@ == old.locked_ranges@.push(r),
        Err(e) => st == e && *new == *old,
    }
}

/// What `unlock_cell target` does.
pub open spec fn unlock_outcome(old: &Spreadsheet, new: &Spreadsheet, t: Seq<char>, st: CommandStatus) -> bool {
    match lock_target(old, trim_spec(after(t, 11))) {
        Ok(r) => st == CommandStatus::CmdOk && *new == (Spreadsheet { locked_ranges: new.locked_ranges, ..*old })
            && new.locked_ranges@ == old.locked_ranges@.filter(|x: Range| x != r),
        Err(e) => st == e && *new == *old,
    }
}

/// What `name target name` does.
pub open spec fn name_outcome(old: &Spreadsheet, new: &Spreadsheet, t: Seq<char>, st: CommandStatus) -> bool {
    match two_words(after(t, 5)) {
        Some((target, name)) => match name_target(old, target) {
            Some(r) => st == CommandStatus::CmdOk && *new == (Spreadsheet { named_ranges: new.named_ranges, ..*old })
                && new.named_ranges.wf() && new.named_ranges.lookup(name) == Some(r)
                && forall|n: Seq<char>| n != name ==> #[trigger] new.named_ranges.lookup(n) == old.named_ranges.lookup(n),
            None => st == CommandStatus::Unrecognized && *new == *old,
        },
        None => st == CommandStatus::Unrecognized && *new == *old,
    }
}

/// What `history cell` does: the cell's last kept value, if any, leaves its history and
/// the cell is set straight to it.
pub open spec fn history_outcome(old: &Spreadsheet, new: &Spreadsheet, t: Seq<char>, t0: u64, t1: u64, st: CommandStatus) -> bool {
    let ok = st == CommandStatus::CmdOk;
    let unchanged = *new == *old && t1 == t0;
    match resolve_spec(old, trim_spec(after(t, 8))) {
        Ok((r, c)) => {
            let k = old.key_of(r as int, c as int) as i32;
            let h = history_of(old, k);
            if h.len() == 0 {
                ok && unchanged
            } else {
                exists|popped: Spreadsheet|
                    #[trigger] to_value_outcome(&popped, new, r, c, h.last(), t0, t1, st)
                        && popped == (Spreadsheet { cell_history: popped.cell_history, ..*old })
                        && popped.cell_history@.contains_key(k)
                        && popped.cell_history@[k]@ == h.drop_last()
                        && forall|j: i32| j != k ==> #[trigger] popped.cell_history@.contains_key(j)
                            == old.cell_history@.contains_key(j) && popped.cell_history@[j] == old.cell_history@[j]
            }
        },
        Err(e) => st == e && unchanged,
    }
}

/// What the command `t` does, from `old` (sleep total `t0`) to `new` (`t1`), answering
/// `st` and asking to show `out`.
pub open spec fn command_outcome(
    old: &Spreadsheet,
    new: &Spreadsheet,
    t: Seq<char>,
    t0: u64,
    t1: u64,
    st: CommandStatus,
    out: CommandOutput,
) -> bool {
    let unchanged = *new == *old && t1 == t0;
    let ok = st == CommandStatus::CmdOk;
    let eq = find_from(t, '=', 0);
    if t.len() == 1 && (t[0] == 'w' || t[0] == 'a' || t[0] == 's' || t[0] == 'd') {
        ok && out is Nothing && t1 == t0 && *new == (Spreadsheet {
            viewport_row: scrolled_row(old.viewport_row, old.rows, t[0]),
            viewport_col: scrolled_col(old.viewport_col, old.cols, t[0]),
            ..*old
        })
    } else if t.len() == 1 && t[0] == 'q' {
        ok && out is Nothing && unchanged
    } else if t == "disable_output"@ {
        ok && out is Nothing && t1 == t0 && *new == (Spreadsheet { output_enabled: false, ..*old })
    } else if t == "enable_output"@ {
        ok && out is Nothing && t1 == t0 && *new == (Spreadsheet { output_enabled: true, ..*old })
    } else if t == "last_edit"@ {
        ok && out is Nothing && t1 == t0 && match old.last_edited {
            Some((r, c)) => *new == (Spreadsheet { viewport_row: r, viewport_col: c, ..*old }),
            None => *new == *old,
        }
    } else if t.len() > 10 && has_prefix(t, "scroll_to "@) {
        out is Nothing && t1 == t0 && match cell_ref_spec(after(t, 10), old.rows as int, old.cols as int) {
            Some((r, c)) => ok && *new == (Spreadsheet { viewport_row: r, viewport_col: c, ..*old }),
            None => st == CommandStatus::Unrecognized && *new == *old,
        }
    } else if eq != -1 {
        let cr = trim_spec(t.subrange(0, eq));
        let ex = trim_spec(after(t, eq + 1));
        out is Nothing && match cell_ref_spec(cr, old.rows as int, old.cols as int) {
            Some((r, c)) => set_outcome(old, new, r, c, ex, t0, t1, st),
            None => st == CommandStatus::Unrecognized && unchanged,
        }
    } else if has_prefix(t, "lock_cell "@) {
        out is Nothing && t1 == t0 && lock_outcome(old, new, t, st)
    } else if has_prefix(t, "visual "@) {
        unchanged && match cell_ref_spec(after(t, 7), old.rows as int, old.cols as int) {
            Some((r, c)) => ok && out == CommandOutput::Visual(r, c),
            None => st == CommandStatus::Unrecognized && out is Nothing,
        }
    } else if has_prefix(t, "unlock_cell "@) {
        out is Nothing && t1 == t0 && unlock_outcome(old, new, t, st)
    } else if has_prefix(t, "is_locked "@) {
        out is Nothing && unchanged && match resolve_spec(old, trim_spec(after(t, 10))) {
            Ok((r, c)) => st == if old.locked(r as int, c as int) {
                CommandStatus::LockedCell
            } else {
                CommandStatus::NotLockedCell
            },
            Err(e) => st == e,
        }
    } else if has_prefix(t, "name "@) {
        out is Nothing && t1 == t0 && name_outcome(old, new, t, st)
    } else if has_prefix(t, "history "@) {
        out is Nothing && history_outcome(old, new, t, t0, t1, st)
    } else if has_prefix(t, "formula "@) {
        unchanged && match resolve_spec(old, trim_spec(after(t, 8))) {
            Ok((r, c)) => ok && (out matches CommandOutput::Text(s) && s@ == formula_text(old, r as int, c as int)),
            Err(e) => st == e && out is Nothing,
        }
    } else if highlight_command(t) is Some {
        let (ht, n) = highlight_command(t)->0;
        out is Nothing && t1 == t0 && match cell_ref_spec(after(t, n), old.rows as int, old.cols as int) {
            Some((r, c)) => ok && *new == (Spreadsheet {
                highlight_cell: old.key_of(r as int, c as int) as i32,
                highlight_type: ht,
                ..*old
            }),
            None => st == CommandStatus::InvalidCell && *new == *old,
        }
    } else if t == "HLOFF"@ {
        ok && out is Nothing && t1 == t0 && *new == (Spreadsheet {
            highlight_cell: -1i32,
            highlight_type: HighlightType::NoHighlight,
            ..*old
        })
    } else {
        st == CommandStatus::Unrecognized && out is Nothing && unchanged
    }
}


/// The range a lock or unlock command names, from `t[a..b]`.
fn parse_lock_target(sheet: &Spreadsheet, t: &Vec<char>, a: usize, b: usize) -> (r: Result<Range, CommandStatus>)
    requires
        sheet.dims_ok(),
        sheet.named_ranges.wf(),
        a <= b <= t.len(),
    ensures
        r == lock_target(sheet, t@.subrange(a as int, b as int)),
{
    let target = sub_chars(t, a, b);
    match find_char(&target, ':') {
        Some(_) => match parse_range_chars(sheet, &target) {
            Ok(r) => Ok(r),
            Err(_) => Err(CommandStatus::Unrecognized),
        },
        None => {
            let name = string_of(&target);
            match resolve_cell_reference(sheet, name.as_str()) {
                Ok((r, c)) => Ok(Range { start_row: r, start_col: c, end_row: r, end_col: c }),
                Err(e) => Err(e),
            }
        },
    }
}

/// The range a `name` command binds to, from the target `t`.
fn parse_name_target(sheet: &Spreadsheet, t: &Vec<char>) -> (r: Option<Range>)
    requires
        sheet.dims_ok(),
    ensures
        r == name_target(sheet, t@),
{
    match parse_range_chars(sheet, t) {
        Ok(r) => Some(r),
        Err(_) => {
            proof {
                assert(t@.subrange(0, t@.len() as int) =~= t@);
            }
            match parse_cell_ref_chars(sheet, t, 0, t.len()) {
                Ok((r, c)) => Some(Range { start_row: r, start_col: c, end_row: r, end_col: c }),
                Err(_) => None,
            }
        },
    }
}

/// The two words of `t[lo..]`, when it holds exactly two.
fn split_two_words(t: &Vec<char>, lo: usize) -> (r: Option<(Vec<char>, Vec<char>)>)
    requires
        lo <= t.len(),
    ensures
        match two_words(after(t@, lo as int)) {
            Some((x, y)) => r matches Some((a, b)) && a@ == x && b@ == y,
            None => r is None,
        },
{
    let ghost s = after(t@, lo as int);
    let (a, b) = trim_bounds(t, lo, t.len());
    let ghost u = trim_spec(s);
    assert(u == t@.subrange(a as int, b as int));
    if a == b {
        return None;
    }
    match find_ws(t, a, b) {
        None => None,
        Some(i) => {
            let (c, d) = trim_bounds(t, i, b);
            proof {
                assert(u.subrange(i - a, u.len() as int) =~= t@.subrange(i as int, b as int));
                assert(t@.subrange(c as int, d as int) == trim_spec(u.subrange(i - a, u.len() as int)));
            }
            match find_ws(t, c, d) {
                Some(_) => None,
                None => {
                    let x = sub_chars(t, a, i);
                    let y = sub_chars(t, c, d);
                    proof {
                        assert(u.subrange(0, i - a) =~= x@);
                    }
                    Some((x, y))
                },
            }
        },
    }
}


/// Runs `lock_cell target`, or `unlock_cell target` when `unlock`.
fn run_lock(sheet: &mut Spreadsheet, t: &Vec<char>, unlock: bool) -> (st: CommandStatus)
    requires
        sheet_ok(old(sheet)),
        !unlock ==> 10 <= t@.len(),
        unlock ==> 11 <= t@.len(),
    ensures
        sheet_ok(final(sheet)),
        !unlock ==> lock_outcome(old(sheet), final(sheet), t@, st),
        unlock ==> unlock_outcome(old(sheet), final(sheet), t@, st),
{
    let (a, b) = trim_bounds(t, if unlock { 11 } else { 10 }, t.len());
    match parse_lock_target(sheet, t, a, b) {
        Ok(r) => {
            if unlock {
                sheet.unlock_range(r);
            } else {
                sheet.lock_range(r);
            }
            proof {
                lemma_sheet_ok_same(old(sheet), sheet);
            }
            CommandStatus::CmdOk
        },
        Err(e) => e,
    }
}

/// Runs `name target name`.
fn run_name(sheet: &mut Spreadsheet, t: &Vec<char>) -> (st: CommandStatus)
    requires
        sheet_ok(old(sheet)),
        5 <= t@.len(),
    ensures
        sheet_ok(final(sheet)),
        name_outcome(old(sheet), final(sheet), t@, st),
{
    match split_two_words(t, 5) {
        Some((target, name)) => match parse_name_target(sheet, &target) {
            Some(r) => {
                let n = string_of(&name);
                sheet.named_ranges.insert(n, r);
                proof {
                    assert(range_valid(old(sheet), r));
                    assert forall|m: Seq<char>| #[trigger] sheet.named_ranges.lookup(m) is Some implies range_valid(sheet, sheet.named_ranges.lookup(m)->0) by {
                        if m != name@ {
                            assert(sheet.named_ranges.lookup(m) == old(sheet).named_ranges.lookup(m));
                        }
                    }
                    assert(names_ok(sheet));
                    crate::evaluator::lemma_deps_ok_same(old(sheet), sheet);
                }
                CommandStatus::CmdOk
            },
            None => CommandStatus::Unrecognized,
        },
        None => CommandStatus::Unrecognized,
    }
}

/// Runs `history cell`.
fn run_history(sheet: &mut Spreadsheet, t: &Vec<char>, sleep_time: &mut u64) -> (st: CommandStatus)
    requires
        sheet_ok(old(sheet)),
        8 <= t@.len(),
    ensures
        sheet_ok(final(sheet)),
        history_outcome(old(sheet), final(sheet), t@, *old(sleep_time), *final(sleep_time), st),
{
    let (a, b) = trim_bounds(t, 8, t.len());
    let target = string_of(&sub_chars(t, a, b));
    match resolve_cell_reference(sheet, target.as_str()) {
        Ok((row, col)) => {
            proof {
                if sheet.named_ranges.lookup(target@) is Some {
                    assert(range_valid(sheet, sheet.named_ranges.lookup(target@)->0));
                }
            }
            let key = sheet.get_key(row, col);
            let nonempty = match sheet.cell_history.get(&key) {
                Some(h) => h.len() > 0,
                None => false,
            };
            if !nonempty {
                return CommandStatus::CmdOk;
            }
            let ghost hist = history_of(sheet, key);
            let mut h = sheet.cell_history.remove(&key).unwrap();
            assert(h@ == hist);
            let prev = h.pop().unwrap();
            assert(prev == hist.last());
            assert(h@ == hist.drop_last());
            sheet.cell_history.insert(key, h);
            let ghost popped = *sheet;
            proof {
                assert(popped.cell_history@.contains_key(key));
                assert(popped.cell_history@[key]@ == hist.drop_last());
                assert(popped == (Spreadsheet { cell_history: popped.cell_history, ..*old(sheet) }));
                lemma_sheet_ok_same(old(sheet), sheet);
                assert forall|j: i32| j != key implies #[trigger] popped.cell_history@.contains_key(j)
                    == old(sheet).cell_history@.contains_key(j) && popped.cell_history@[j] == old(sheet).cell_history@[j] by {
                    assert(popped.cell_history@.dom().contains(j) == old(sheet).cell_history@.dom().contains(j));
                }
            }
            let st = set_cell_to_value(sheet, row, col, prev, sleep_time);
            proof {
                assert(to_value_outcome(&popped, sheet, row, col, prev, *old(sleep_time), *sleep_time, st));
            }
            st
        },
        Err(e) => e,
    }
}

/// Runs the command `trimmed`: scrolling (`w`, `a`, `s`, `d`, `scroll_to`, `last_edit`),
/// output on and off, assignments `cell=expr`, locking, names, history, highlighting, and
/// the requests to show a formula or a cell's relationships, which come back as output.
pub fn handle_command_with_output(sheet: &mut Spreadsheet, trimmed: &str, sleep_time: &mut u64) -> (r: (CommandStatus, CommandOutput))
    requires
        sheet_ok(old(sheet)),
    ensures
        sheet_ok(final(sheet)),
        command_outcome(old(sheet), final(sheet), trimmed@, *old(sleep_time), *final(sleep_time), r.0, r.1),
{
    let t = chars_of(trimmed);
    proof {
        reveal_strlit("disable_output");
        reveal_strlit("enable_output");
        reveal_strlit("last_edit");
        reveal_strlit("scroll_to ");
        reveal_strlit("lock_cell ");
        reveal_strlit("visual ");
        reveal_strlit("unlock_cell ");
        reveal_strlit("is_locked ");
        reveal_strlit("name ");
        reveal_strlit("history ");
        reveal_strlit("formula ");
        reveal_strlit("HLP ");
        reveal_strlit("HLC ");
        reveal_strlit("HLPC ");
        reveal_strlit("HLOFF");
    }
    if t.len() == 1 {
        let c = t[0];
        if c == 'w' || c == 'a' || c == 's' || c == 'd' {
            sheet.scroll_viewport(c);
            proof {
                lemma_sheet_ok_same(old(sheet), sheet);
            }
            return (CommandStatus::CmdOk, CommandOutput::Nothing);
        }
        if c == 'q' {
            return (CommandStatus::CmdOk, CommandOutput::Nothing);
        }
    }
    if text_is(&t, "disable_output") {
        sheet.output_enabled = false;
            proof {
                lemma_sheet_ok_same(old(sheet), sheet);
            }
        return (CommandStatus::CmdOk, CommandOutput::Nothing);
    }
    if text_is(&t, "enable_output") {
        sheet.output_enabled = true;
            proof {
                lemma_sheet_ok_same(old(sheet), sheet);
            }
        return (CommandStatus::CmdOk, CommandOutput::Nothing);
    }
    if text_is(&t, "last_edit") {
        sheet.scroll_to_last_edited();
            proof {
                lemma_sheet_ok_same(old(sheet), sheet);
            }
        return (CommandStatus::CmdOk, CommandOutput::Nothing);
    }
    if t.len() > 10 && starts_with(&t, "scroll_to ") {
        let rest = string_of(&sub_chars(&t, 10, t.len()));
        let st = sheet.scroll_to_cell(rest.as_str());
        proof {
            lemma_sheet_ok_same(old(sheet), sheet);
        }
        return (st, CommandOutput::Nothing);
    }
    if let Some(pos) = find_char(&t, '=') {
        let (a, b) = trim_bounds(&t, 0, pos);
        let (c, d) = trim_bounds(&t, pos + 1, t.len());
        proof {
            assert(t@.subrange(pos + 1, t@.len() as int) =~= after(t@, pos + 1));
        }
        match parse_cell_ref_chars(sheet, &t, a, b) {
            Ok((row, col)) => {
                let ex = string_of(&sub_chars(&t, c, d));
                let st = set_cell_value(sheet, row, col, ex.as_str(), sleep_time);
                return (st, CommandOutput::Nothing);
            },
            Err(e) => {
                return (e, CommandOutput::Nothing);
            },
        }
    }
    if starts_with(&t, "lock_cell ") {
        return (run_lock(sheet, &t, false), CommandOutput::Nothing);
    }
    if starts_with(&t, "visual ") {
        return match parse_cell_ref_chars(sheet, &t, 7, t.len()) {
            Ok((row, col)) => (CommandStatus::CmdOk, CommandOutput::Visual(row, col)),
            Err(e) => (e, CommandOutput::Nothing),
        };
    }
    if starts_with(&t, "unlock_cell ") {
        return (run_lock(sheet, &t, true), CommandOutput::Nothing);
    }
    if starts_with(&t, "is_locked ") {
        let (a, b) = trim_bounds(&t, 10, t.len());
        let target = string_of(&sub_chars(&t, a, b));
        return match resolve_cell_reference(sheet, target.as_str()) {
            Ok((row, col)) => {
                if sheet.is_cell_locked(row, col) {
                    (CommandStatus::LockedCell, CommandOutput::Nothing)
                } else {
                    (CommandStatus::NotLockedCell, CommandOutput::Nothing)
                }
            },
            Err(e) => (e, CommandOutput::Nothing),
        };
    }
    if starts_with(&t, "name ") {
        return (run_name(sheet, &t), CommandOutput::Nothing);
    }
    if starts_with(&t, "history ") {
        return (run_history(sheet, &t, sleep_time), CommandOutput::Nothing);
    }
    if starts_with(&t, "formula ") {
        let (a, b) = trim_bounds(&t, 8, t.len());
        let target = string_of(&sub_chars(&t, a, b));
        return match resolve_cell_reference(sheet, target.as_str()) {
            Ok((row, col)) => (CommandStatus::CmdOk, CommandOutput::Text(get_formula_string(sheet, row, col))),
            Err(e) => (e, CommandOutput::Nothing),
        };
    }
    let hl = if starts_with(&t, "HLP ") {
        Some((HighlightType::Parent, 4usize))
    } else if starts_with(&t, "HLC ") {
        Some((HighlightType::Child, 4usize))
    } else if starts_with(&t, "HLPC ") {
        Some((HighlightType::Both, 5usize))
    } else {
        None
    };
    if let Some((ht, n)) = hl {
        return match parse_cell_ref_chars(sheet, &t, n, t.len()) {
            Ok((row, col)) => {
                sheet.set_highlight(row, col, ht);
            proof {
                lemma_sheet_ok_same(old(sheet), sheet);
            }
                (CommandStatus::CmdOk, CommandOutput::Nothing)
            },
            Err(_) => (CommandStatus::InvalidCell, CommandOutput::Nothing),
        };
    }
    if text_is(&t, "HLOFF") {
        sheet.disable_highlight();
            proof {
                lemma_sheet_ok_same(old(sheet), sheet);
            }
        return (CommandStatus::CmdOk, CommandOutput::Nothing);
    }
    (CommandStatus::Unrecognized, CommandOutput::Nothing)
}

/// Runs the command `trimmed` and answers its status; what it asks to show is left out.
pub fn handle_command(sheet: &mut Spreadsheet, trimmed: &str, sleep_time: &mut u64) -> (st: CommandStatus)
    requires
        sheet_ok(old(sheet)),
    ensures
        sheet_ok(final(sheet)),
        exists|out: CommandOutput| #[trigger] command_outcome(old(sheet), final(sheet), trimmed@, *old(sleep_time), *final(sleep_time), st, out),
{
    let (st, out) = handle_command_with_output(sheet, trimmed, sleep_time);
    st
}

} // verus!
