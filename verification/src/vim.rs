//! A modal, vim-like editor over the sheet: a cursor, normal and insert modes, a clipboard
//! and a history of commands.
use vstd::prelude::*;
use crate::cell::CellValue;
use crate::command::{CommandOutput, command_outcome, handle_command_with_output};
use crate::evaluator::{assign_value, has_prefix, relinked, sheet_ok};
use crate::extensions::{formula_text, get_formula_string};
use crate::spreadsheet::{CommandStatus, Spreadsheet, column_name_spec};
use crate::text::{
    starts_with, text_is,
    chars_of, int_text, push_char, push_int, push_str, string_of, sub_chars, trim_bounds,
    trim_spec,
};

verus! {

/// The editor's mode.
#[derive(Debug, Clone, Copy, PartialEq, Eq, Structural)]
pub enum EditorMode {
    Normal,
    Insert,
}

/// The state of the editor.
pub struct EditorState {
    pub mode: EditorMode,
    pub cursor_row: i16,
    pub cursor_col: i16,
    /// The copied cell: its row, column, value and formula text (empty without a formula).
    pub clipboard: Option<(i16, i16, CellValue, String)>,
    pub should_quit: bool,
    pub save_file: Option<String>,
    pub command_history: Vec<String>,
    pub history_position: usize,
}

/// What the editor asks its caller to do after a command.
pub enum VimAction {
    /// Nothing more.
    Nothing,
    /// Save the sheet to the file, then quit when the flag says so and saving worked.
    Save(String, bool),
    /// Delete the file.
    Remove(String),
    /// Show the command's output and sleep for the given seconds.
    Command(CommandOutput, u64),
}

/// Where the viewport's first row or column goes so that the cursor's row or column `c`
/// shows among the ten shown from `v`.
pub open spec fn follow(v: i16, c: i16) -> i16 {
    if c < v {
        c
    } else if c >= v + 10 {
        if c - 9 < 0 {
            0
        } else {
            (c - 9) as i16
        }
    } else {
        v
    }
}

/// The cursor after a move `h`, `j`, `k` or `l` in a sheet of `rows` x `cols` cells.
pub open spec fn moved(r: i16, c: i16, rows: i16, cols: i16, d: char) -> (i16, i16) {
    if d == 'h' && c > 0 {
        (r, (c - 1) as i16)
    } else if d == 'j' && r < rows - 1 {
        ((r + 1) as i16, c)
    } else if d == 'k' && r > 0 {
        ((r - 1) as i16, c)
    } else if d == 'l' && c < cols - 1 {
        (r, (c + 1) as i16)
    } else {
        (r, c)
    }
}

/// The reference of the cell under the cursor, such as `B3`.
pub open spec fn cursor_ref(state: &EditorState) -> Seq<char> {
    column_name_spec(state.cursor_col as int) + int_text(state.cursor_row as int + 1)
}

/// `new` is `old` with `command` remembered, unless it is blank or repeats the last one
/// remembered; the history position then points past the end.
pub open spec fn history_added(old: &EditorState, new: &EditorState, command: Seq<char>) -> bool {
    let h = old.command_history@;
    let skip = trim_spec(command).len() == 0 || (h.len() > 0 && h.last()@ == command);
    if skip {
        *new == *old
    } else {
        &&& new.command_history@.len() == h.len() + 1
        &&& new.command_history@.subrange(0, h.len() as int) == h
        &&& new.command_history@.last()@ == command
        &&& new.history_position == h.len() + 1
        &&& *new == (EditorState {
            command_history: new.command_history,
            history_position: new.history_position,
            ..*old
        })
    }
}

impl EditorState {
    /// The cursor is on a cell of the sheet.
    pub open spec fn fits(&self, sheet: &Spreadsheet) -> bool {
        &&& 0 <= self.cursor_row < sheet.rows
        &&& 0 <= self.cursor_col < sheet.cols
    }

    /// The initial state: normal mode, cursor on `A1`, nothing copied, no file, no history.
    pub fn new() -> (s: Self)
        ensures
            s.mode == EditorMode::Normal,
            s.cursor_row == 0,
            s.cursor_col == 0,
            s.clipboard is None,
            !s.should_quit,
            s.save_file is None,
            s.command_history@.len() == 0,
            s.history_position == 0,
    {
        EditorState {
            mode: EditorMode::Normal,
            cursor_row: 0,
            cursor_col: 0,
            clipboard: None,
            should_quit: false,
            save_file: None,
            command_history: Vec::new(),
            history_position: 0,
        }
    }

    /// The mode's name: `NORMAL` or `INSERT`.
    pub fn mode_display(&self) -> (s: &str)
        ensures
            s@ == if self.mode == EditorMode::Normal {
                "NORMAL"@
            } else {
                "INSERT"@
            },
    {
        match self.mode {
            EditorMode::Normal => "NORMAL",
            EditorMode::Insert => "INSERT",
        }
    }

    /// Moves the viewport so that it shows the cursor's cell.
    pub fn adjust_viewport(&self, sheet: &mut Spreadsheet)
        requires
            old(sheet).wf(),
        ensures
            *final(sheet) == (Spreadsheet {
                viewport_row: follow(old(sheet).viewport_row, self.cursor_row),
                viewport_col: follow(old(sheet).viewport_col, self.cursor_col),
                ..*old(sheet)
            }),
            self.fits(old(sheet)) ==> final(sheet).wf(),
    {
        if self.cursor_row < sheet.viewport_row {
            sheet.viewport_row = self.cursor_row;
        } else if self.cursor_row >= sheet.viewport_row + 10 {
            sheet.viewport_row = self.cursor_row - 10 + 1;
            if sheet.viewport_row < 0 {
                sheet.viewport_row = 0;
            }
        }
        if self.cursor_col < sheet.viewport_col {
            sheet.viewport_col = self.cursor_col;
        } else if self.cursor_col >= sheet.viewport_col + 10 {
            sheet.viewport_col = self.cursor_col - 10 + 1;
            if sheet.viewport_col < 0 {
                sheet.viewport_col = 0;
            }
        }
    }

    /// Moves the cursor one cell left (`h`), down (`j`), up (`k`) or right (`l`), staying in
    /// the sheet, and makes the viewport show it.
    pub fn move_cursor(&mut self, direction: char, sheet: &mut Spreadsheet)
        requires
            old(sheet).wf(),
            old(self).fits(old(sheet)),
        ensures
            (final(self).cursor_row, final(self).cursor_col) == moved(
                old(self).cursor_row,
                old(self).cursor_col,
                old(sheet).rows,
                old(sheet).cols,
                direction,
            ),
            *final(self) == (EditorState {
                cursor_row: final(self).cursor_row,
                cursor_col: final(self).cursor_col,
                ..*old(self)
            }),
            final(self).fits(final(sheet)),
            *final(sheet) == (Spreadsheet {
                viewport_row: follow(old(sheet).viewport_row, final(self).cursor_row),
                viewport_col: follow(old(sheet).viewport_col, final(self).cursor_col),
                ..*old(sheet)
            }),
            final(sheet).wf(),
    {
        if direction == 'h' {
            if self.cursor_col > 0 {
                self.cursor_col -= 1;
            }
        } else if direction == 'j' {
            if self.cursor_row < sheet.rows - 1 {
                self.cursor_row += 1;
            }
        } else if direction == 'k' {
            if self.cursor_row > 0 {
                self.cursor_row -= 1;
            }
        } else if direction == 'l' {
            if self.cursor_col < sheet.cols - 1 {
                self.cursor_col += 1;
            }
        }
        self.adjust_viewport(sheet);
    }

    /// Remembers a command, unless it is blank or repeats the last one remembered; the
    /// history position then points past the end.
    #[verifier::rlimit(40)]
    pub fn add_to_history(&mut self, command: &str)
        ensures
            history_added(old(self), final(self), command@),
    {
        let t = chars_of(command);
        let (a, b) = trim_bounds(&t, 0, t.len());
        proof {
            assert(t@.subrange(0, t@.len() as int) =~= command@);
        }
        if a == b {
            proof {
                assert(trim_spec(command@).len() == 0);
            }
            return;
        }
        let n = self.command_history.len();
        if n > 0 {
            let last = chars_of(self.command_history[n - 1].as_str());
            if crate::text::chars_eq(&last, &t) {
                proof {
                    assert(old(self).command_history@.last()@ == command@);
                }
                return;
            }
        }
        let ghost h = old(self).command_history@;
        proof {
            assert(trim_spec(command@).len() != 0);
            assert(!(h.len() > 0 && h.last()@ == command@));
        }
        let s = string_of(&t);
        self.command_history.push(s);
        self.history_position = self.command_history.len();
        proof {
            assert(self.command_history@.subrange(0, n as int) =~= old(self).command_history@);
        }
    }

    /// The reference of the cell under the cursor, such as `B3`.
    pub fn cursor_to_cell_ref(&self, sheet: &Spreadsheet) -> (s: String)
        requires
            self.fits(sheet),
        ensures
            s@ == cursor_ref(self),
    {
        let mut s = sheet.get_column_name(self.cursor_col);
        push_int(&mut s, self.cursor_row as i64 + 1);
        s
    }
}


/// The text of the clipboard's formula for the cell with key `x`: its formula, or nothing
/// when it has none.
pub open spec fn copied_formula(sheet: &Spreadsheet, r: i16, c: i16) -> Seq<char> {
    if sheet.cell_meta@.contains_key(sheet.key_of(r as int, c as int) as i32) {
        formula_text(sheet, r as int, c as int)
    } else {
        Seq::empty()
    }
}

/// The assignment command that puts `text` in the cell under the cursor.
pub open spec fn cursor_assignment(state: &EditorState, text: Seq<char>) -> Seq<char> {
    cursor_ref(state) + seq!['='] + text
}

impl EditorState {
    /// Runs the assignment of `value` to the cell under the cursor as a command.
    fn assign_at_cursor(&self, sheet: &mut Spreadsheet, value: &str, sleep_time: &mut u64) -> (r: (CommandStatus, CommandOutput))
        requires
            sheet_ok(old(sheet)),
            self.fits(old(sheet)),
        ensures
            sheet_ok(final(sheet)),
            command_outcome(old(sheet), final(sheet), cursor_assignment(self, value@), *old(sleep_time), *final(sleep_time), r.0, r.1),
    {
        let mut command = self.cursor_to_cell_ref(sheet);
        push_char(&mut command, '=');
        push_str(&mut command, value);
        proof {
            assert(command@ =~= cursor_assignment(self, value@));
        }
        handle_command_with_output(sheet, command.as_str(), sleep_time)
    }

    /// Assigns `value` to the cell under the cursor, as the command `ref=value` would; the
    /// sleep that a `SLEEP` formula asks for is not waited for here.
    pub fn set_cursor_cell_value(&self, sheet: &mut Spreadsheet, value: &str) -> (st: CommandStatus)
        requires
            sheet_ok(old(sheet)),
            self.fits(old(sheet)),
        ensures
            sheet_ok(final(sheet)),
            exists|t: u64, out: CommandOutput|
                #[trigger] command_outcome(old(sheet), final(sheet), cursor_assignment(self, value@), 0, t, st, out),
    {
        let mut sleep: u64 = 0;
        let (st, out) = self.assign_at_cursor(sheet, value, &mut sleep);
        st
    }
}

/// Copies the cell under the cursor, with its formula text, into the clipboard.
fn yank_cell(sheet: &Spreadsheet, state: &mut EditorState) -> (st: CommandStatus)
    requires
        sheet.wf(),
        old(state).fits(sheet),
    ensures
        st == CommandStatus::CmdOk,
        final(state).clipboard matches Some((r, c, v, f)) && r == old(state).cursor_row && c == old(state).cursor_col
            && v == sheet.grid@[sheet.key_of(r as int, c as int)] && f@ == copied_formula(sheet, r, c),
        *final(state) == (EditorState { clipboard: final(state).clipboard, ..*old(state) }),
{
    let row = state.cursor_row;
    let col = state.cursor_col;
    proof {
        crate::spreadsheet::lemma_key_roundtrip(row as int, col as int, sheet.rows as int, sheet.cols as int);
    }
    let v = *sheet.get_key_cell(sheet.get_key(row, col));
    let key = sheet.get_key(row, col);
    let formula = if sheet.cell_meta.contains_key(&key) {
        get_formula_string(sheet, row, col)
    } else {
        String::new()
    };
    state.clipboard = Some((row, col, v, formula));
    CommandStatus::CmdOk
}


/// Cuts the cell under the cursor: copies it, then leaves it 0 without a formula (the cells
/// that read it keep their values until they are next re-evaluated).
fn cut_cell(sheet: &mut Spreadsheet, state: &mut EditorState) -> (st: CommandStatus)
    requires
        sheet_ok(old(sheet)),
        old(state).fits(old(sheet)),
    ensures
        st == CommandStatus::CmdOk,
        sheet_ok(final(sheet)),
        final(state).clipboard matches Some((r, c, v, f)) && r == old(state).cursor_row && c == old(state).cursor_col
            && v == old(sheet).grid@[old(sheet).key_of(r as int, c as int)] && f@ == copied_formula(old(sheet), r, c),
        *final(state) == (EditorState { clipboard: final(state).clipboard, ..*old(state) }),
        ({
            let x = old(sheet).key_of(old(state).cursor_row as int, old(state).cursor_col as int) as i32;
            &&& relinked(old(sheet), final(sheet), x, None, false)
            &&& final(sheet).grid@ == old(sheet).grid@.update(x as int, CellValue::Integer(0))
        }),
{
    yank_cell(sheet, state);
    let ghost s0 = *sheet;
    assign_value(sheet, state.cursor_row, state.cursor_col, CellValue::Integer(0));
    proof {
        crate::evaluator::lemma_cell_key(&s0, state.cursor_row as int, state.cursor_col as int);
        assert(s0 == *old(sheet));
        assert(state.cursor_row == old(state).cursor_row && state.cursor_col == old(state).cursor_col);
    }
    CommandStatus::CmdOk
}

/// What pasting does: the clipboard's formula, or else its number, is assigned to the cell
/// under the cursor as a command; an error value or an empty clipboard is refused.
pub open spec fn paste_outcome(old: &Spreadsheet, new: &Spreadsheet, state: &EditorState, t1: u64, st: CommandStatus, out: CommandOutput) -> bool {
    match state.clipboard {
        Some((_, _, v, f)) => if f@.len() > 0 {
            command_outcome(old, new, cursor_assignment(state, f@), 0, t1, st, out)
        } else {
            match v {
                CellValue::Integer(n) => command_outcome(old, new, cursor_assignment(state, int_text(n as int)), 0, t1, st, out),
                CellValue::Error => st == CommandStatus::Unrecognized && *new == *old && t1 == 0 && out is Nothing,
            }
        },
        None => st == CommandStatus::Unrecognized && *new == *old && t1 == 0 && out is Nothing,
    }
}

/// Pastes the clipboard into the cell under the cursor.
fn paste_cell(sheet: &mut Spreadsheet, state: &EditorState) -> (r: (CommandStatus, CommandOutput, u64))
    requires
        sheet_ok(old(sheet)),
        state.fits(old(sheet)),
    ensures
        sheet_ok(final(sheet)),
        paste_outcome(old(sheet), final(sheet), state, r.2, r.0, r.1),
{
    let mut sleep: u64 = 0;
    match &state.clipboard {
        Some((_, _, v, f)) => {
            if !f.as_str().is_empty() {
                let (st, out) = state.assign_at_cursor(sheet, f.as_str(), &mut sleep);
                (st, out, sleep)
            } else {
                match v {
                    CellValue::Integer(n) => {
                        let mut text = String::new();
                        push_int(&mut text, *n as i64);
                        proof {
                            assert(text@ =~= int_text(*n as int));
                        }
                        let (st, out) = state.assign_at_cursor(sheet, text.as_str(), &mut sleep);
                        (st, out, sleep)
                    },
                    CellValue::Error => (CommandStatus::Unrecognized, CommandOutput::Nothing, 0),
                }
            }
        },
        None => (CommandStatus::Unrecognized, CommandOutput::Nothing, 0),
    }
}


/// The file that `:w` (`wq` false) or `:wq` (`wq` true) names: the text after the space, or
/// the current file when none is given.
pub open spec fn write_target(cmd: Seq<char>, save_file: Option<Seq<char>>, wq: bool) -> Option<Seq<char>> {
    if !wq {
        if cmd.len() > 1 && cmd[1] == ' ' {
            Some(trim_spec(cmd.subrange(2, cmd.len() as int)))
        } else if cmd == "w"@ {
            save_file
        } else {
            None
        }
    } else {
        if cmd.len() > 2 && cmd[2] == ' ' {
            Some(trim_spec(cmd.subrange(3, cmd.len() as int)))
        } else {
            save_file
        }
    }
}

/// The current file's name.
pub open spec fn file_of(state: &EditorState) -> Option<Seq<char>> {
    match state.save_file {
        Some(f) => Some(f@),
        None => None,
    }
}

/// The command is passed on as an ordinary command.
pub open spec fn passed_on(s0: &Spreadsheet, s1: &Spreadsheet, e0: &EditorState, e1: &EditorState, t: Seq<char>, st: CommandStatus, act: VimAction) -> bool {
    &&& act matches VimAction::Command(out, sl) && command_outcome(s0, s1, t, 0, sl, st, out)
    &&& *e1 == *e0
}

/// What a `:` command does in normal mode.
pub open spec fn colon_outcome(s0: &Spreadsheet, s1: &Spreadsheet, e0: &EditorState, e1: &EditorState, t: Seq<char>, st: CommandStatus, act: VimAction) -> bool {
    let cmd = t.subrange(1, t.len() as int);
    let ok = st == CommandStatus::CmdOk;
    let refused = st == CommandStatus::Unrecognized && act is Nothing && *s1 == *s0 && *e1 == *e0;
    if has_prefix(cmd, "w"@) && !has_prefix(cmd, "wq"@) || has_prefix(cmd, "wq"@) {
        let wq = has_prefix(cmd, "wq"@);
        match write_target(cmd, file_of(e0), wq) {
            Some(f) => ok && (act matches VimAction::Save(g, q) && g@ == f && q == wq) && *s1 == *s0
                && file_of(e1) == Some(f) && *e1 == (EditorState { save_file: e1.save_file, ..*e0 }),
            None => refused,
        }
    } else if cmd == "q"@ {
        ok && act is Nothing && *s1 == *s0 && *e1 == (EditorState { should_quit: true, ..*e0 })
    } else if trim_spec(cmd) == "!rm %"@ {
        match file_of(e0) {
            Some(f) => ok && (act matches VimAction::Remove(g) && g@ == f) && *s1 == *s0 && *e1 == *e0,
            None => refused,
        }
    } else {
        passed_on(s0, s1, e0, e1, t, st, act)
    }
}

/// What a command does in normal mode: moving, entering insert mode, cutting, copying,
/// pasting, quitting, the `:` commands, and otherwise an ordinary command.
pub open spec fn normal_outcome(s0: &Spreadsheet, s1: &Spreadsheet, e0: &EditorState, e1: &EditorState, t: Seq<char>, st: CommandStatus, act: VimAction) -> bool {
    let ok = st == CommandStatus::CmdOk;
    let c = t[0];
    let x = s0.key_of(e0.cursor_row as int, e0.cursor_col as int);
    if t.len() == 1 && (c == 'h' || c == 'j' || c == 'k' || c == 'l') {
        &&& ok && act is Nothing
        &&& (e1.cursor_row, e1.cursor_col) == moved(e0.cursor_row, e0.cursor_col, s0.rows, s0.cols, c)
        &&& *e1 == (EditorState { cursor_row: e1.cursor_row, cursor_col: e1.cursor_col, ..*e0 })
        &&& *s1 == (Spreadsheet {
            viewport_row: follow(s0.viewport_row, e1.cursor_row),
            viewport_col: follow(s0.viewport_col, e1.cursor_col),
            ..*s0
        })
    } else if t.len() == 1 && c == 'i' {
        ok && act is Nothing && *s1 == *s0 && *e1 == (EditorState { mode: EditorMode::Insert, ..*e0 })
    } else if t.len() == 1 && (c == 'd' || c == 'y') {
        &&& ok && act is Nothing
        &&& e1.clipboard matches Some((r, cc, v, f)) && r == e0.cursor_row && cc == e0.cursor_col
            && v == s0.grid@[x] && f@ == copied_formula(s0, r, cc)
        &&& *e1 == (EditorState { clipboard: e1.clipboard, ..*e0 })
        &&& if c == 'y' {
            *s1 == *s0
        } else {
            relinked(s0, s1, x as i32, None, false) && s1.grid@ == s0.grid@.update(x, CellValue::Integer(0))
        }
    } else if t.len() == 1 && c == 'p' {
        &&& act matches VimAction::Command(out, sl) && paste_outcome(s0, s1, e0, sl, st, out)
        &&& *e1 == *e0
    } else if t.len() == 1 && c == 'q' {
        ok && act is Nothing && *s1 == *s0 && *e1 == (EditorState { should_quit: true, ..*e0 })
    } else if t.len() >= 1 && c == ':' {
        colon_outcome(s0, s1, e0, e1, t, st, act)
    } else {
        passed_on(s0, s1, e0, e1, t, st, act)
    }
}

/// What a line does in insert mode: `Esc` goes back to normal mode; anything else is
/// assigned to the cell under the cursor, which then moves down when that succeeded.
pub open spec fn insert_outcome(s0: &Spreadsheet, s1: &Spreadsheet, e0: &EditorState, e1: &EditorState, t: Seq<char>, st: CommandStatus, act: VimAction) -> bool {
    if t == "Esc"@ || t == seq!['\u{1b}'] {
        st == CommandStatus::CmdOk && act is Nothing && *s1 == *s0 && *e1 == (EditorState { mode: EditorMode::Normal, ..*e0 })
    } else {
        exists|mid: Spreadsheet|
            #[trigger] command_outcome(s0, &mid, cursor_assignment(e0, t), 0, act->Command_1, st, act->Command_0)
                && act is Command && if st == CommandStatus::CmdOk {
                &&& (e1.cursor_row, e1.cursor_col) == moved(e0.cursor_row, e0.cursor_col, mid.rows, mid.cols, 'j')
                &&& *e1 == (EditorState { cursor_row: e1.cursor_row, cursor_col: e1.cursor_col, ..*e0 })
                &&& *s1 == (Spreadsheet {
                    viewport_row: follow(mid.viewport_row, e1.cursor_row),
                    viewport_col: follow(mid.viewport_col, e1.cursor_col),
                    ..mid
                })
            } else {
                *s1 == mid && *e1 == *e0
            }
    }
}


/// Passes `input` on as an ordinary command.
fn pass_on(sheet: &mut Spreadsheet, input: &str) -> (r: (CommandStatus, VimAction))
    requires
        sheet_ok(old(sheet)),
    ensures
        sheet_ok(final(sheet)),
        r.1 matches VimAction::Command(out, sl) && command_outcome(old(sheet), final(sheet), input@, 0, sl, r.0, out),
{
    let mut sleep: u64 = 0;
    let (st, out) = handle_command_with_output(sheet, input, &mut sleep);
    (st, VimAction::Command(out, sleep))
}

/// Runs a `:` command in normal mode.
fn colon_command(sheet: &mut Spreadsheet, input: &str, t: &Vec<char>, state: &mut EditorState) -> (r: (CommandStatus, VimAction))
    requires
        sheet_ok(old(sheet)),
        old(state).fits(old(sheet)),
        t@ == input@,
        t@.len() >= 1,
        t@[0] == ':',
    ensures
        sheet_ok(final(sheet)),
        final(state).fits(final(sheet)),
        colon_outcome(old(sheet), final(sheet), old(state), final(state), input@, r.0, r.1),
{
    let cmd = sub_chars(t, 1, t.len());
    proof {
        reveal_strlit("w");
        reveal_strlit("wq");
        reveal_strlit("q");
        reveal_strlit("!rm %");
    }
    let is_w = starts_with(&cmd, "w");
    let is_wq = starts_with(&cmd, "wq");
    if is_w && !is_wq || is_wq {
        let target: Option<String> = if !is_wq {
            if cmd.len() > 1 && cmd[1] == ' ' {
                let (a, b) = trim_bounds(&cmd, 2, cmd.len());
                Some(string_of(&sub_chars(&cmd, a, b)))
            } else if text_is(&cmd, "w") {
                match &state.save_file {
                    Some(f) => Some(f.clone()),
                    None => None,
                }
            } else {
                None
            }
        } else {
            if cmd.len() > 2 && cmd[2] == ' ' {
                let (a, b) = trim_bounds(&cmd, 3, cmd.len());
                Some(string_of(&sub_chars(&cmd, a, b)))
            } else {
                match &state.save_file {
                    Some(f) => Some(f.clone()),
                    None => None,
                }
            }
        };
        return match target {
            Some(f) => {
                let g = f.clone();
                state.save_file = Some(f);
                (CommandStatus::CmdOk, VimAction::Save(g, is_wq))
            },
            None => (CommandStatus::Unrecognized, VimAction::Nothing),
        };
    }
    if text_is(&cmd, "q") {
        state.should_quit = true;
        return (CommandStatus::CmdOk, VimAction::Nothing);
    }
    let (a, b) = trim_bounds(&cmd, 0, cmd.len());
    let tc = sub_chars(&cmd, a, b);
    proof {
        assert(cmd@.subrange(0, cmd@.len() as int) =~= cmd@);
    }
    if text_is(&tc, "!rm %") {
        return match &state.save_file {
            Some(f) => (CommandStatus::CmdOk, VimAction::Remove(f.clone())),
            None => (CommandStatus::Unrecognized, VimAction::Nothing),
        };
    }
    pass_on(sheet, input)
}

/// Runs a command in normal mode.
fn handle_normal_mode_command(sheet: &mut Spreadsheet, input: &str, state: &mut EditorState) -> (r: (CommandStatus, VimAction))
    requires
        sheet_ok(old(sheet)),
        old(state).fits(old(sheet)),
    ensures
        sheet_ok(final(sheet)),
        final(state).fits(final(sheet)),
        normal_outcome(old(sheet), final(sheet), old(state), final(state), input@, r.0, r.1),
{
    let t = chars_of(input);
    if t.len() == 1 {
        let c = t[0];
        if c == 'h' || c == 'j' || c == 'k' || c == 'l' {
            state.move_cursor(c, sheet);
            proof {
                crate::evaluator::lemma_sheet_ok_same(old(sheet), sheet);
            }
            return (CommandStatus::CmdOk, VimAction::Nothing);
        }
        if c == 'i' {
            state.mode = EditorMode::Insert;
            return (CommandStatus::CmdOk, VimAction::Nothing);
        }
        if c == 'd' {
            proof {
                crate::evaluator::lemma_cell_key(old(sheet), state.cursor_row as int, state.cursor_col as int);
            }
            let st = cut_cell(sheet, state);
            return (st, VimAction::Nothing);
        }
        if c == 'y' {
            let st = yank_cell(sheet, state);
            return (st, VimAction::Nothing);
        }
        if c == 'p' {
            let (st, out, sl) = paste_cell(sheet, state);
            return (st, VimAction::Command(out, sl));
        }
        if c == 'q' {
            state.should_quit = true;
            return (CommandStatus::CmdOk, VimAction::Nothing);
        }
    }
    if t.len() >= 1 && t[0] == ':' {
        return colon_command(sheet, input, &t, state);
    }
    pass_on(sheet, input)
}

/// Runs a line in insert mode.
fn handle_insert_mode_command(sheet: &mut Spreadsheet, input: &str, state: &mut EditorState) -> (r: (CommandStatus, VimAction))
    requires
        sheet_ok(old(sheet)),
        old(state).fits(old(sheet)),
    ensures
        sheet_ok(final(sheet)),
        final(state).fits(final(sheet)),
        insert_outcome(old(sheet), final(sheet), old(state), final(state), input@, r.0, r.1),
{
    let t = chars_of(input);
    proof {
        reveal_strlit("Esc");
    }
    if text_is(&t, "Esc") || (t.len() == 1 && t[0] == '\u{1b}') {
        proof {
            if t.len() == 1 && t[0] == '\u{1b}' {
                assert(input@ =~= seq!['\u{1b}']);
            }
        }
        state.mode = EditorMode::Normal;
        return (CommandStatus::CmdOk, VimAction::Nothing);
    }
    proof {
        if input@ == seq!['\u{1b}'] {
            assert(t@[0] == '\u{1b}');
        }
    }
    let mut sleep: u64 = 0;
    let (st, out) = state.assign_at_cursor(sheet, input, &mut sleep);
    let ghost mid = *sheet;
    if st == CommandStatus::CmdOk {
        state.move_cursor('j', sheet);
        proof {
            crate::evaluator::lemma_sheet_ok_same(&mid, sheet);
        }
    }
    let act = VimAction::Command(out, sleep);
    proof {
        assert(act->Command_1 == sleep);
        assert(act->Command_0 == out);
        assert(command_outcome(old(sheet), &mid, cursor_assignment(old(state), input@), 0, act->Command_1, st, act->Command_0));
    }
    (st, act)
}

/// Runs a line of the editor in the current mode. Saving and deleting files, and waiting
/// for a `SLEEP`, are left to the caller, as the returned action says.
pub fn handle_vim_command(sheet: &mut Spreadsheet, input: &str, state: &mut EditorState) -> (r: (CommandStatus, VimAction))
    requires
        sheet_ok(old(sheet)),
        old(state).fits(old(sheet)),
    ensures
        sheet_ok(final(sheet)),
        final(state).fits(final(sheet)),
        exists|mid: EditorState|
            #[trigger] history_added(old(state), &mid, input@) && (old(state).mode == EditorMode::Normal ==> normal_outcome(
                old(sheet),
                final(sheet),
                &mid,
                final(state),
                input@,
                r.0,
                r.1,
            )) && (old(state).mode == EditorMode::Insert ==> insert_outcome(
                old(sheet),
                final(sheet),
                &mid,
                final(state),
                input@,
                r.0,
                r.1,
            )),
{
    state.add_to_history(input);
    let ghost mid = *state;
    let r = match state.mode {
        EditorMode::Normal => handle_normal_mode_command(sheet, input, state),
        EditorMode::Insert => handle_insert_mode_command(sheet, input, state),
    };
    proof {
        assert(history_added(old(state), &mid, input@));
    }
    r
}

/// Settles a save that the editor asked for: a failed save is answered `Unrecognized`; a
/// save that worked answers `CmdOk` and ends the editor when `quit` was asked.
pub fn finish_save(state: &mut EditorState, saved: bool, quit: bool) -> (st: CommandStatus)
    ensures
        saved ==> st == CommandStatus::CmdOk && *final(state) == (EditorState {
            should_quit: old(state).should_quit || quit,
            ..*old(state)
        }),
        !saved ==> st == CommandStatus::Unrecognized && *final(state) == *old(state),
{
    if !saved {
        return CommandStatus::Unrecognized;
    }
    if quit {
        state.should_quit = true;
    }
    CommandStatus::CmdOk
}

/// Settles a deletion of the current file: when it worked the editor forgets the file.
pub fn finish_remove(state: &mut EditorState, removed: bool) -> (st: CommandStatus)
    ensures
        removed ==> st == CommandStatus::CmdOk && *final(state) == (EditorState { save_file: None, ..*old(state) }),
        !removed ==> st == CommandStatus::Unrecognized && *final(state) == *old(state),
{
    if !removed {
        return CommandStatus::Unrecognized;
    }
    state.save_file = None;
    CommandStatus::CmdOk
}

/// Each move keeps the cursor in the sheet and goes one cell its way unless the edge is
/// reached: `h` left, `l` right, `k` up, `j` down. A move that went somewhere is undone by
/// the opposite move.
pub proof fn law_moves(r: i16, c: i16, rows: i16, cols: i16)
    requires
        0 <= r < rows,
        0 <= c < cols,
    ensures
        moved(r, c, rows, cols, 'h') == (if c > 0 { (r, (c - 1) as i16) } else { (r, c) }),
        moved(r, c, rows, cols, 'l') == (if c < cols - 1 { (r, (c + 1) as i16) } else { (r, c) }),
        moved(r, c, rows, cols, 'k') == (if r > 0 { ((r - 1) as i16, c) } else { (r, c) }),
        moved(r, c, rows, cols, 'j') == (if r < rows - 1 { ((r + 1) as i16, c) } else { (r, c) }),
        c > 0 ==> moved(r, (c - 1) as i16, rows, cols, 'l') == (r, c),
        c < cols - 1 ==> moved(r, (c + 1) as i16, rows, cols, 'h') == (r, c),
        r > 0 ==> moved((r - 1) as i16, c, rows, cols, 'j') == (r, c),
        r < rows - 1 ==> moved((r + 1) as i16, c, rows, cols, 'k') == (r, c),
{
}

} // verus!
