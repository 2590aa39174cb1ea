//! The editor's screen: the visible part of the sheet, then a status bar with the cursor's
//! cell and formula, the mode, the clipboard and the highlight commands.
use vstd::prelude::*;
use crate::cell::CellValue;
use crate::extensions::{formula_text, get_formula_string};
use crate::render::view_text;
use crate::spreadsheet::{HighlightType, Spreadsheet};
use crate::text::{int_text, push_int, push_str};
use crate::vim::{EditorMode, EditorState, cursor_ref};

verus! {

/// What `{:?}` writes for a string: the string quoted, with the characters that need it
/// escaped.
pub uninterp spec fn debug_of(s: Seq<char>) -> Seq<char>;

/// `format!("{:?}", s)`: the `Debug` form of a string, a function of the string alone.
#[verifier::external_body]
fn debug_text(s: &str) -> (r: String)
    ensures
        r@ == debug_of(s@),
{
    format!("{:?}", s)
}

/// What `{:?}` writes for a cell value.
pub open spec fn value_debug(v: CellValue) -> Seq<char> {
    match v {
        CellValue::Integer(n) => "Integer("@ + int_text(n as int) + ")"@,
        CellValue::Error => "Error"@,
    }
}

/// The lines that show the clipboard, when something is copied.
pub open spec fn clipboard_lines(state: &EditorState) -> Seq<char> {
    match state.clipboard {
        Some((_, _, v, f)) => "Clipboard: "@ + value_debug(v) + "\n"@ + (if f@.len() > 0 {
            "Formula: "@ + debug_of(f@) + "\n"@
        } else {
            Seq::empty()
        }),
        None => Seq::empty(),
    }
}

/// The formula shown for the cursor's cell: its text when it has metadata, else nothing.
pub open spec fn cursor_formula(state: &EditorState, sheet: &Spreadsheet) -> Seq<char> {
    let k = sheet.key_of(state.cursor_row as int, state.cursor_col as int) as i32;
    if sheet.cell_meta@.contains_key(k) {
        formula_text(sheet, state.cursor_row as int, state.cursor_col as int)
    } else {
        Seq::empty()
    }
}

/// The screen: a clear-screen code, the visible part of the sheet (highlighted when a
/// highlight is on, nothing when output is off), then the status bar.
pub open spec fn screen_text(state: &EditorState, sheet: &Spreadsheet) -> Seq<char> {
    let grid = if !sheet.output_enabled {
        Seq::empty()
    } else {
        view_text(sheet, sheet.highlight_type != HighlightType::NoHighlight)
    };
    let mode = if state.mode == EditorMode::Normal {
        "NORMAL"@
    } else {
        "INSERT"@
    };
    seq!['\u{1b}', '[', '2', 'J', '\u{1b}', '[', '1', ';', '1', 'H'] + grid + "\nCursor at: "@ + cursor_ref(state)
        + " - "@ + cursor_formula(state, sheet) + "\n"@ + "Mode: "@ + mode
        + " | Use h|j|k|l to navigate, i to insert, Esc to exit insert mode\n"@ + clipboard_lines(state)
        + "Highlight: :HLP (parents), :HLC (children), :HLPC (family)\n"@
}

/// Appends what `{:?}` writes for a cell value.
fn push_value_debug(s: &mut String, v: CellValue)
    ensures
        final(s)@ == old(s)@ + value_debug(v),
{
    match v {
        CellValue::Integer(n) => {
            push_str(s, "Integer(");
            push_int(s, n as i64);
            push_str(s, ")");
            proof {
                assert(final(s)@ =~= old(s)@ + value_debug(v));
            }
        },
        CellValue::Error => push_str(s, "Error"),
    }
}

impl EditorState {
    /// The editor's screen, as [`screen_text`] says.
    pub fn render_spreadsheet(&mut self, sheet: &Spreadsheet) -> (s: String)
        requires
            sheet.wf(),
            sheet.viewport_row >= 0,
            sheet.viewport_col >= 0,
            old(self).fits(sheet),
        ensures
            *final(self) == *old(self),
            s@ == screen_text(old(self), sheet),
    {
        let mut s = String::new();
        let clear = vec!['\u{1b}', '[', '2', 'J', '\u{1b}', '[', '1', ';', '1', 'H'];
        crate::text::push_chars(&mut s, &clear);
        let grid = sheet.print_spreadsheet();
        push_str(&mut s, grid.as_str());
        push_str(&mut s, "\nCursor at: ");
        let r = self.cursor_to_cell_ref(sheet);
        push_str(&mut s, r.as_str());
        push_str(&mut s, " - ");
        proof {
            crate::evaluator::lemma_cell_key(sheet, self.cursor_row as int, self.cursor_col as int);
        }
        let key = sheet.get_key(self.cursor_row, self.cursor_col);
        if sheet.cell_meta.contains_key(&key) {
            let f = get_formula_string(sheet, self.cursor_row, self.cursor_col);
            push_str(&mut s, f.as_str());
        }
        push_str(&mut s, "\n");
        push_str(&mut s, "Mode: ");
        push_str(&mut s, self.mode_display());
        push_str(&mut s, " | Use h|j|k|l to navigate, i to insert, Esc to exit insert mode\n");
        let ghost before_clip = s@;
        match &self.clipboard {
            Some((_, _, value, formula)) => {
                push_str(&mut s, "Clipboard: ");
                push_value_debug(&mut s, *value);
                push_str(&mut s, "\n");
                if !formula.as_str().is_empty() {
                    push_str(&mut s, "Formula: ");
                    let d = debug_text(formula.as_str());
                    push_str(&mut s, d.as_str());
                    push_str(&mut s, "\n");
                }
            },
            None => {},
        }
        proof {
            assert(s@ =~= before_clip + clipboard_lines(self));
        }
        push_str(&mut s, "Highlight: :HLP (parents), :HLC (children), :HLPC (family)\n");
        proof {
            assert(clear@ =~= seq!['\u{1b}', '[', '2', 'J', '\u{1b}', '[', '1', ';', '1', 'H']);
            assert(s@ =~= screen_text(self, sheet));
        }
        s
    }
}

} // verus!
