use ferro_sheet::cell::CellValue;
use ferro_sheet::command::handle_command;
use ferro_sheet::save_load::{load_spreadsheet, save_spreadsheet};
use ferro_sheet::spreadsheet::{CommandStatus, Spreadsheet};
use ferro_sheet::vim::EditorState;

fn run(sheet: &mut Spreadsheet, cmd: &str) -> CommandStatus {
    let mut t = 0u64;
    handle_command(sheet, cmd, &mut t)
}

fn value(sheet: &Spreadsheet, r: i16, c: i16) -> CellValue {
    *sheet.get_cell(r, c)
}

#[test]
fn dependents_follow_an_assignment() {
    let mut sheet = Spreadsheet::create(5, 5).unwrap();
    assert_eq!(run(&mut sheet, "A1=2"), CommandStatus::CmdOk);
    assert_eq!(run(&mut sheet, "B1=A1*3"), CommandStatus::CmdOk);
    assert_eq!(run(&mut sheet, "C1=SUM(A1:B1)"), CommandStatus::CmdOk);
    assert_eq!(run(&mut sheet, "D1=C1-A1"), CommandStatus::CmdOk);
    assert_eq!(value(&sheet, 0, 2), CellValue::Integer(8));
    assert_eq!(run(&mut sheet, "A1=5"), CommandStatus::CmdOk);
    assert_eq!(value(&sheet, 0, 1), CellValue::Integer(15));
    assert_eq!(value(&sheet, 0, 2), CellValue::Integer(20));
    assert_eq!(value(&sheet, 0, 3), CellValue::Integer(15));
    assert_eq!(run(&mut sheet, "A1=1/0"), CommandStatus::CmdOk);
    assert_eq!(value(&sheet, 0, 1), CellValue::Error);
    assert_eq!(value(&sheet, 0, 3), CellValue::Error);
}

#[test]
fn a_refused_ring_keeps_everything() {
    let mut sheet = Spreadsheet::create(5, 5).unwrap();
    assert_eq!(run(&mut sheet, "A1=4"), CommandStatus::CmdOk);
    assert_eq!(run(&mut sheet, "B1=A1+1"), CommandStatus::CmdOk);
    assert_eq!(run(&mut sheet, "A1=B1"), CommandStatus::CircularRef);
    assert_eq!(value(&sheet, 0, 0), CellValue::Integer(4));
    assert_eq!(value(&sheet, 0, 1), CellValue::Integer(5));
    // A1 still holds a plain value: changing it still reaches B1.
    assert_eq!(run(&mut sheet, "A1=10"), CommandStatus::CmdOk);
    assert_eq!(value(&sheet, 0, 1), CellValue::Integer(11));
}

#[test]
fn history_gives_back_the_value_before_the_assignment() {
    let mut sheet = Spreadsheet::create(5, 5).unwrap();
    assert_eq!(run(&mut sheet, "A1=3"), CommandStatus::CmdOk);
    assert_eq!(run(&mut sheet, "A1=9"), CommandStatus::CmdOk);
    assert_eq!(value(&sheet, 0, 0), CellValue::Integer(9));
    assert_eq!(run(&mut sheet, "history A1"), CommandStatus::CmdOk);
    assert_eq!(value(&sheet, 0, 0), CellValue::Integer(3));
}

#[test]
fn a_locked_cell_keeps_its_value() {
    let mut sheet = Spreadsheet::create(5, 5).unwrap();
    assert_eq!(run(&mut sheet, "A1=3"), CommandStatus::CmdOk);
    assert_eq!(run(&mut sheet, "lock_cell A1:A1"), CommandStatus::CmdOk);
    assert_eq!(run(&mut sheet, "A1=8"), CommandStatus::LockedCell);
    assert_eq!(value(&sheet, 0, 0), CellValue::Integer(3));
}

#[test]
fn drawing_names_the_cells() {
    let mut sheet = Spreadsheet::create(5, 5).unwrap();
    assert_eq!(run(&mut sheet, "A1=7"), CommandStatus::CmdOk);
    assert_eq!(run(&mut sheet, "B2=A1+1"), CommandStatus::CmdOk);
    let v = sheet.visualize_cell_relationships(1, 1).unwrap();
    assert!(v.dot.contains("digraph"));
    assert!(v.dot.contains("A1 (7)"));
    assert!(v.dot.contains("B2 (8)"));
    assert!(v.dot.contains("->"));
    assert_eq!(v.dot_file, "cell_1_1_relationships.dot");
}

#[test]
fn screen_quotes_the_clipboard_formula() {
    let mut state = EditorState::new();
    let sheet = Spreadsheet::create(3, 3).unwrap();
    state.clipboard = Some((0, 0, CellValue::Integer(42), "A1+\"B1\"".to_string()));
    let screen = state.render_spreadsheet(&sheet);
    assert!(screen.contains("Clipboard: Integer(42)"));
    assert!(screen.contains("Formula: \"A1+\\\"B1\\\"\""));
}

#[test]
fn unlocking_right_after_locking_restores_editing() {
    let mut sheet = Spreadsheet::create(5, 5).unwrap();
    assert_eq!(run(&mut sheet, "lock_cell A1:B2"), CommandStatus::CmdOk);
    assert!(sheet.is_cell_locked(1, 1));
    assert_eq!(run(&mut sheet, "B2=4"), CommandStatus::LockedCell);
    assert_eq!(run(&mut sheet, "unlock_cell A1:B2"), CommandStatus::CmdOk);
    assert!(!sheet.is_cell_locked(1, 1));
    assert_eq!(run(&mut sheet, "B2=4"), CommandStatus::CmdOk);
    assert_eq!(value(&sheet, 1, 1), CellValue::Integer(4));
}

#[test]
fn saving_then_loading_keeps_formulas() {
    let mut sheet = Spreadsheet::create(5, 5).unwrap();
    assert_eq!(run(&mut sheet, "A1=2"), CommandStatus::CmdOk);
    assert_eq!(run(&mut sheet, "B1=A1+3"), CommandStatus::CmdOk);
    assert_eq!(run(&mut sheet, "C2=SUM(A1:B1)"), CommandStatus::CmdOk);
    let text = save_spreadsheet(&sheet);
    let mut other = Spreadsheet::create(5, 5).unwrap();
    assert_eq!(run(&mut other, "E5=9"), CommandStatus::CmdOk);
    assert_eq!(load_spreadsheet(&mut other, &text), CommandStatus::CmdOk);
    for (r, c) in [(0, 0), (0, 1), (1, 2), (4, 4)] {
        assert_eq!(other.get_cell_meta_ref(r, c), sheet.get_cell_meta_ref(r, c));
        assert_eq!(value(&other, r, c), value(&sheet, r, c));
    }
    // The loaded formulas still follow their operands.
    assert_eq!(run(&mut other, "A1=10"), CommandStatus::CmdOk);
    assert_eq!(value(&other, 0, 1), CellValue::Integer(13));
    assert_eq!(value(&other, 1, 2), CellValue::Integer(23));
}

#[test]
fn history_updates_the_dependents_too() {
    let mut sheet = Spreadsheet::create(5, 5).unwrap();
    assert_eq!(run(&mut sheet, "A1=3"), CommandStatus::CmdOk);
    assert_eq!(run(&mut sheet, "B1=A1*2"), CommandStatus::CmdOk);
    assert_eq!(run(&mut sheet, "A1=9"), CommandStatus::CmdOk);
    assert_eq!(value(&sheet, 0, 1), CellValue::Integer(18));
    assert_eq!(run(&mut sheet, "history A1"), CommandStatus::CmdOk);
    assert_eq!(value(&sheet, 0, 0), CellValue::Integer(3));
    assert_eq!(value(&sheet, 0, 1), CellValue::Integer(6));
}

#[test]
fn a_refused_ring_keeps_the_recorded_ranges() {
    let mut sheet = Spreadsheet::create(5, 5).unwrap();
    assert_eq!(run(&mut sheet, "A1=1"), CommandStatus::CmdOk);
    assert_eq!(run(&mut sheet, "C1=SUM(A1:B1)"), CommandStatus::CmdOk);
    assert_eq!(run(&mut sheet, "D1=MAX(A1:C1)"), CommandStatus::CmdOk);
    let mut before: Vec<(i32, i32, i32)> =
        sheet.range_children.iter().map(|r| (r.start_key, r.end_key, r.child_key)).collect();
    assert_eq!(run(&mut sheet, "C1=MIN(D1:E1)"), CommandStatus::CircularRef);
    let mut after: Vec<(i32, i32, i32)> =
        sheet.range_children.iter().map(|r| (r.start_key, r.end_key, r.child_key)).collect();
    before.sort();
    after.sort();
    assert_eq!(before, after);
    assert_eq!(run(&mut sheet, "A1=5"), CommandStatus::CmdOk);
    assert_eq!(value(&sheet, 0, 2), CellValue::Integer(5));
    assert_eq!(value(&sheet, 0, 3), CellValue::Integer(5));
}

#[test]
fn the_viewport_follows_a_cursor_past_the_sheet() {
    let mut sheet = Spreadsheet::create(10, 10).unwrap();
    let mut state = EditorState::new();
    state.cursor_row = 15;
    state.cursor_col = 5;
    state.adjust_viewport(&mut sheet);
    assert_eq!((sheet.viewport_row, sheet.viewport_col), (6, 0));
}

#[test]
fn drawability_is_checked_before_drawing() {
    let mut sheet = Spreadsheet::create(5, 5).unwrap();
    assert_eq!(run(&mut sheet, "A1=7"), CommandStatus::CmdOk);
    assert_eq!(run(&mut sheet, "B2=A1+1"), CommandStatus::CmdOk);
    assert!(sheet.is_visualizable(1, 1));
    assert!(sheet.is_visualizable(0, 0));
    sheet.get_cell_meta(2, 2).parent1 = 100;
    sheet.get_cell_meta(2, 2).formula = 12;
    assert!(!sheet.is_visualizable(2, 2));
}
