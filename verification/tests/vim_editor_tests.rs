#![allow(unused_imports, unused_variables, unused_mut)]
use ferro_sheet::cell::CellValue;
use ferro_sheet::command::handle_command;
use ferro_sheet::spreadsheet::{CommandStatus, Spreadsheet};
use ferro_sheet::vim::{handle_vim_command, EditorMode, EditorState};

fn vim(sheet: &mut Spreadsheet, input: &str, state: &mut EditorState) -> CommandStatus {
    handle_vim_command(sheet, input, state).0
}


#[test]
fn test_new_editor_state() {
let state = EditorState::new();
assert_eq!(state.mode, EditorMode::Normal);
assert_eq!(state.cursor_row, 0);
assert_eq!(state.cursor_col, 0);
assert_eq!(state.should_quit, false);
assert_eq!(state.clipboard, None);
assert_eq!(state.save_file, None);
assert!(state.command_history.is_empty());
}

#[test]
fn test_mode_display() {
let mut state = EditorState::new();
assert_eq!(state.mode_display(), "NORMAL");
state.mode = EditorMode::Insert;
assert_eq!(state.mode_display(), "INSERT");
}

#[test]
fn test_move_cursor() {
let mut state = EditorState::new();
let mut sheet = Spreadsheet::create(10, 10).unwrap();

// Test right movement
state.move_cursor('l', &mut sheet);
assert_eq!(state.cursor_col, 1);
assert_eq!(state.cursor_row, 0);

// Test down movement
state.move_cursor('j', &mut sheet);
assert_eq!(state.cursor_col, 1);
assert_eq!(state.cursor_row, 1);

// Test left movement
state.move_cursor('h', &mut sheet);
assert_eq!(state.cursor_col, 0);
assert_eq!(state.cursor_row, 1);

// Test up movement
state.move_cursor('k', &mut sheet);
assert_eq!(state.cursor_col, 0);
assert_eq!(state.cursor_row, 0);

// Test edge cases - cannot move beyond boundaries
// Left edge
state.cursor_col = 0;
state.move_cursor('h', &mut sheet);
assert_eq!(state.cursor_col, 0);

// Top edge
state.cursor_row = 0;
state.move_cursor('k', &mut sheet);
assert_eq!(state.cursor_row, 0);

// Right edge
state.cursor_col = sheet.cols - 1;
state.move_cursor('l', &mut sheet);
assert_eq!(state.cursor_col, sheet.cols - 1);

// Bottom edge
state.cursor_row = sheet.rows - 1;
state.move_cursor('j', &mut sheet);
assert_eq!(state.cursor_row, sheet.rows - 1);

// Invalid direction
state.cursor_row = 5;
state.cursor_col = 5;
state.move_cursor('x', &mut sheet);
assert_eq!(state.cursor_row, 5);
assert_eq!(state.cursor_col, 5);
}

#[test]
fn test_add_to_history() {
let mut state = EditorState::new();

// Add first command
state.add_to_history("A1=10");
assert_eq!(state.command_history.len(), 1);
assert_eq!(state.command_history[0], "A1=10");
assert_eq!(state.history_position, 1);

// Add second command
state.add_to_history("B1=20");
assert_eq!(state.command_history.len(), 2);
assert_eq!(state.command_history[1], "B1=20");
assert_eq!(state.history_position, 2);

// Empty commands should not be added
state.add_to_history("");
assert_eq!(state.command_history.len(), 2);

// Whitespace-only commands should not be added
state.add_to_history("   ");
assert_eq!(state.command_history.len(), 2);

// Duplicate of the last command should not be added
state.add_to_history("B1=20");
assert_eq!(state.command_history.len(), 2);

// But a different command should be added
state.add_to_history("C1=30");
assert_eq!(state.command_history.len(), 3);
assert_eq!(state.command_history[2], "C1=30");
assert_eq!(state.history_position, 3);
}

#[test]
fn test_adjust_viewport() {
// Starting state
let state = EditorState {
    mode: EditorMode::Normal,
    cursor_row: 5,
    cursor_col: 5,
    clipboard: None,
    should_quit: false,
    save_file: None,
    command_history: Vec::new(),
    history_position: 0,
};

// Test 1: Cursor is within viewport
let mut sheet = Spreadsheet::create(20, 20).unwrap();
sheet.viewport_row = 0;
sheet.viewport_col = 0;
state.adjust_viewport(&mut sheet);
assert_eq!(sheet.viewport_row, 0);
assert_eq!(sheet.viewport_col, 0);

// Test 2: Cursor is below viewport
let mut sheet = Spreadsheet::create(20, 20).unwrap();
sheet.viewport_row = 0;
sheet.viewport_col = 0;
let state = EditorState { cursor_row: 15, cursor_col: 5, ..state };
state.adjust_viewport(&mut sheet);
assert_eq!(sheet.viewport_row, 6);
assert_eq!(sheet.viewport_col, 0);

// Test 3: Cursor is to the right of viewport
let mut sheet = Spreadsheet::create(20, 20).unwrap();
sheet.viewport_row = 0;
sheet.viewport_col = 0;
let state = EditorState { cursor_row: 5, cursor_col: 15, ..state };
state.adjust_viewport(&mut sheet);
assert_eq!(sheet.viewport_row, 0);
assert_eq!(sheet.viewport_col, 6);

// Test 4: Cursor is above viewport
let mut sheet = Spreadsheet::create(20, 20).unwrap();
sheet.viewport_row = 10;
sheet.viewport_col = 0;
let state = EditorState { cursor_row: 5, cursor_col: 5, ..state };
state.adjust_viewport(&mut sheet);
assert_eq!(sheet.viewport_row, 5);
assert_eq!(sheet.viewport_col, 0);

// Test 5: Cursor is to the left of viewport
let mut sheet = Spreadsheet::create(20, 20).unwrap();
sheet.viewport_row = 0;
sheet.viewport_col = 10;
let state = EditorState { cursor_row: 5, cursor_col: 5, ..state };
state.adjust_viewport(&mut sheet);
assert_eq!(sheet.viewport_row, 0);
assert_eq!(sheet.viewport_col, 5);

// Test 6: Edge case - cursor at (0,0) with viewport elsewhere
let mut sheet = Spreadsheet::create(20, 20).unwrap();
sheet.viewport_row = 5;
sheet.viewport_col = 5;
let state = EditorState { cursor_row: 0, cursor_col: 0, ..state };
state.adjust_viewport(&mut sheet);
assert_eq!(sheet.viewport_row, 0);
assert_eq!(sheet.viewport_col, 0);

// Test 7: Edge case - cursor at max position with viewport at start
let mut sheet = Spreadsheet::create(20, 20).unwrap();
sheet.viewport_row = 0;
sheet.viewport_col = 0;
let state = EditorState { cursor_row: 19, cursor_col: 19, ..state };
state.adjust_viewport(&mut sheet);
assert_eq!(sheet.viewport_row, 10);
assert_eq!(sheet.viewport_col, 10);
}

#[test]
fn test_parse_cell_ref() {
let sheet = Spreadsheet::create(20, 26).unwrap();

// This is a private method, so we need to test it indirectly
// We can do this by testing methods that use it or testing
// the behavior it enables. Let's make sure cursor_to_cell_ref works.

let mut editor = EditorState::new();
editor.cursor_row = 0;
editor.cursor_col = 0;
assert_eq!(editor.cursor_to_cell_ref(&sheet), "A1");

editor.cursor_row = 2;
editor.cursor_col = 3;
assert_eq!(editor.cursor_to_cell_ref(&sheet), "D3");

editor.cursor_row = 19;
editor.cursor_col = 25;
assert_eq!(editor.cursor_to_cell_ref(&sheet), "Z20");
}

#[test]
fn test_cursor_to_cell_ref() {
let mut state = EditorState::new();
let sheet = Spreadsheet::create(10, 30).unwrap();

// Test simple cases
state.cursor_row = 0;
state.cursor_col = 0;
assert_eq!(state.cursor_to_cell_ref(&sheet), "A1");

state.cursor_row = 2;
state.cursor_col = 3;
assert_eq!(state.cursor_to_cell_ref(&sheet), "D3");

// Test multi-letter column names
state.cursor_row = 0;
state.cursor_col = 26;
assert_eq!(state.cursor_to_cell_ref(&sheet), "AA1");

state.cursor_row = 9;
state.cursor_col = 29;
assert_eq!(state.cursor_to_cell_ref(&sheet), "AD10");
}

#[test]
fn test_editor_with_large_spreadsheet() {
// Test with a larger spreadsheet to ensure everything scales properly
let mut state = EditorState::new();
let mut sheet = Spreadsheet::create(100, 100).unwrap();

// Navigate to a cell way outside the initial viewport
state.cursor_row = 50;
state.cursor_col = 50;
state.adjust_viewport(&mut sheet);

// Ensure viewport adjusted correctly
assert!(sheet.viewport_row <= state.cursor_row);
assert!(sheet.viewport_row + 10 > state.cursor_row);
assert!(sheet.viewport_col <= state.cursor_col);
assert!(sheet.viewport_col + 10 > state.cursor_col);

// Set a value at this position
let _ = state.set_cursor_cell_value(&mut sheet, "99");

// Verify the cell value
match sheet.get_cell(50, 50) {
    CellValue::Integer(value) => assert_eq!(*value, 99),
    _ => panic!("Expected Integer cell value"),
}

// Test cursor movement around edges
state.cursor_row = 99;
state.cursor_col = 99;
state.move_cursor('j', &mut sheet); // Try to move down (should stay at 99)
state.move_cursor('l', &mut sheet); // Try to move right (should stay at 99)
assert_eq!(state.cursor_row, 99);
assert_eq!(state.cursor_col, 99);
}

#[test]
fn test_clipboard_functionality() {
let mut state = EditorState::new();

// Set up clipboard with simple data
state.clipboard = Some((0, 0, CellValue::Integer(42), "=A1+B1".to_string()));

// Verify clipboard contents
match &state.clipboard {
    Some((row, col, value, formula)) => {
        assert_eq!(*row, 0);
        assert_eq!(*col, 0);
        assert_eq!(*value, CellValue::Integer(42));
        assert_eq!(*formula, "=A1+B1");
    },
    None => panic!("Expected clipboard to contain data"),
}

// Clear clipboard
state.clipboard = None;
assert!(state.clipboard.is_none());
}

#[test]
fn test_editor_save_file() {
let mut state = EditorState::new();

// Initially no save file is set
assert!(state.save_file.is_none());

// Set a save file
state.save_file = Some("test_spreadsheet.ss".to_string());

match &state.save_file {
    Some(filename) => assert_eq!(filename, "test_spreadsheet.ss"),
    None => panic!("Expected save file to be set"),
}

// Change save file
state.save_file = Some("new_filename.ss".to_string());

match &state.save_file {
    Some(filename) => assert_eq!(filename, "new_filename.ss"),
    None => panic!("Expected save file to be set"),
}

// Clear save file
state.save_file = None;
assert!(state.save_file.is_none());
}

#[test]
fn test_command_history_navigation() {
let mut state = EditorState::new();

// Add some commands to history
state.add_to_history("A1=10");
state.add_to_history("B1=20");
state.add_to_history("C1=30");

assert_eq!(state.command_history.len(), 3);
assert_eq!(state.history_position, 3);

// Move back in history
if state.history_position > 0 {
    state.history_position -= 1;
}
assert_eq!(state.history_position, 2);
assert_eq!(state.command_history[state.history_position], "C1=30");

// Move back again
if state.history_position > 0 {
    state.history_position -= 1;
}
assert_eq!(state.history_position, 1);
assert_eq!(state.command_history[state.history_position], "B1=20");

// Move forward
if state.history_position < state.command_history.len() {
    state.history_position += 1;
}
assert_eq!(state.history_position, 2);
assert_eq!(state.command_history[state.history_position], "C1=30");
}

#[test]
fn test_editor_mode_switching() {
let mut state = EditorState::new();

// Default is normal mode
assert_eq!(state.mode, EditorMode::Normal);

// Switch to insert mode
state.mode = EditorMode::Insert;
assert_eq!(state.mode, EditorMode::Insert);

// Switch back to normal mode
state.mode = EditorMode::Normal;
assert_eq!(state.mode, EditorMode::Normal);
}

#[test]
fn test_render_spreadsheet() {
// Since render_spreadsheet prints to stdout, we can't easily capture and test its output
// in a unit test. However, we can test that it runs without crashing
// and that it correctly updates the state when needed.

// Create test state and spreadsheet
let mut state = EditorState::new();
let sheet = Spreadsheet::create(10, 10).unwrap();

// Basic test - should run without panicking
state.render_spreadsheet(&sheet);

// Test with cursor at different positions
state.cursor_row = 5;
state.cursor_col = 5;
state.render_spreadsheet(&sheet);

// Test with clipboard data
state.clipboard = Some((1, 1, CellValue::Integer(42), "=A1+B1".to_string()));
state.render_spreadsheet(&sheet);

// Test with different modes
state.mode = EditorMode::Insert;
state.render_spreadsheet(&sheet);
state.mode = EditorMode::Normal;
state.render_spreadsheet(&sheet);

// Test with a cell that has a formula
let mut sheet_with_formula = Spreadsheet::create(10, 10).unwrap();
let _ = handle_command(&mut sheet_with_formula, "A1=10", &mut 0u64);
let _ = handle_command(&mut sheet_with_formula, "B1=A1*2", &mut 0u64);
state.cursor_row = 0;
state.cursor_col = 1; // B1
state.render_spreadsheet(&sheet_with_formula);
}

#[test]
fn test_adjust_viewport_negative_conditions() {
let mut state = EditorState::new();
let mut sheet = Spreadsheet::create(20, 20).unwrap();

// Test case where viewport would go negative after adjustment
sheet.viewport_row = 5;
sheet.viewport_col = 5;

// Place cursor at position 0,0 - this should pull viewport back to 0,0
state.cursor_row = 0;
state.cursor_col = 0;
state.adjust_viewport(&mut sheet);

// Verify viewport is at 0,0 (not negative)
assert_eq!(sheet.viewport_row, 0);
assert_eq!(sheet.viewport_col, 0);

// Test cursor at far edge with a large viewport position
// that would need to pull back but not go negative
sheet.viewport_row = 15;
sheet.viewport_col = 15;

state.cursor_row = 8; // Should pull viewport to 8
state.cursor_col = 10; // Should pull viewport to 10
state.adjust_viewport(&mut sheet);

assert_eq!(sheet.viewport_row, 8);
assert_eq!(sheet.viewport_col, 10);

// Test edge case with cursor at max but viewport could go negative
// First set a weird state - viewport is negative (shouldn't happen but let's test it)
sheet.viewport_row = -5;
sheet.viewport_col = -5;

// Now adjust viewport with cursor at position that should normalize viewport
state.cursor_row = 15;
state.cursor_col = 15;
state.adjust_viewport(&mut sheet);

// The adjust_viewport function doesn't explicitly handle negative values,
// so let's check the outcome (it should adjust based on cursor position)
assert!(sheet.viewport_row <= state.cursor_row);
assert!(sheet.viewport_row + 10 > state.cursor_row);
assert!(sheet.viewport_col <= state.cursor_col);
assert!(sheet.viewport_col + 10 > state.cursor_col);
}

#[test]
fn test_adjust_viewport_complex_movements() {
let mut state = EditorState::new();
let mut sheet = Spreadsheet::create(30, 30).unwrap();

// Start at the beginning
state.cursor_row = 0;
state.cursor_col = 0;
sheet.viewport_row = 0;
sheet.viewport_col = 0;

// Move cursor down beyond viewport
state.cursor_row = 15;
state.adjust_viewport(&mut sheet);
assert_eq!(sheet.viewport_row, 6); // Viewport should adjust to show cursor

// Move cursor right beyond viewport
state.cursor_col = 15;
state.adjust_viewport(&mut sheet);
assert_eq!(sheet.viewport_col, 6); // Viewport should adjust to show cursor

// Move cursor back to top-left but keep viewport where it is
state.cursor_row = 7; // Still visible in current viewport
state.cursor_col = 7; // Still visible in current viewport
state.adjust_viewport(&mut sheet);
assert_eq!(sheet.viewport_row, 6); // Should not change
assert_eq!(sheet.viewport_col, 6); // Should not change

// Move cursor to boundary edge of viewport
state.cursor_row = 6; // Exactly at viewport edge
state.cursor_col = 6; // Exactly at viewport edge
state.adjust_viewport(&mut sheet);
assert_eq!(sheet.viewport_row, 6); // Should not change
assert_eq!(sheet.viewport_col, 6); // Should not change

// Move cursor just outside viewport boundary
state.cursor_row = 5; // Just outside viewport
state.cursor_col = 5; // Just outside viewport
state.adjust_viewport(&mut sheet);
assert_eq!(sheet.viewport_row, 5); // Should adjust to show cursor
assert_eq!(sheet.viewport_col, 5); // Should adjust to show cursor
}
