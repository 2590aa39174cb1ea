#![allow(unused_imports, unused_variables, unused_mut)]
use ferro_sheet::cell::{parse_cell_reference, Cell, CellValue};
use ferro_sheet::command::handle_command;
use ferro_sheet::evaluator::{evaluate_arithmetic, evaluate_formula, handle_sleep, resolve_cell_reference, set_cell_value};
use ferro_sheet::extensions::get_formula_string;
use ferro_sheet::formula::{eval_avg, eval_max, eval_min, eval_variance, parse_range, sum_value, Range};
use ferro_sheet::graph::{add_children, remove_all_parents};
use ferro_sheet::reevaluate_topo::{reevaluate_formula, sleep_fn, toposort_reval_detect_cycle};
use ferro_sheet::spreadsheet::{CellMeta, CommandStatus, HighlightType, RangeChild, Spreadsheet, MAX_COLS, MAX_ROWS};
use ferro_sheet::visualize::Visualization;

fn create_test_spreadsheet(rows: i16, cols: i16) -> Spreadsheet {
    Spreadsheet::create(rows, cols).unwrap()
}

fn status_of(r: Result<Visualization, CommandStatus>) -> CommandStatus {
    match r {
        Ok(_) => CommandStatus::CmdOk,
        Err(e) => e,
    }
}

#[test]
fn test_visualize_cell_relationships_valid() {
    let sheet = create_test_spreadsheet(5, 5);
    assert_eq!(status_of(sheet.visualize_cell_relationships(0, 0)), CommandStatus::CmdOk);
}

#[test]
fn test_visualize_cell_relationships_invalid_row() {
    let sheet = create_test_spreadsheet(5, 5);
    assert_eq!(status_of(sheet.visualize_cell_relationships(5, 0)), CommandStatus::InvalidCell);
}

#[test]
fn test_visualize_cell_relationships_invalid_col() {
    let sheet = create_test_spreadsheet(5, 5);
    assert_eq!(status_of(sheet.visualize_cell_relationships(0, 5)), CommandStatus::InvalidCell);
}

#[test]
fn test_lock_range() {
    let mut sheet = create_test_spreadsheet(5, 5);
    let range = Range { start_row: 1, start_col: 1, end_row: 2, end_col: 2 };
    sheet.lock_range(range.clone());
    assert_eq!(sheet.locked_ranges.len(), 1);
    assert_eq!(sheet.locked_ranges[0], range);
}

#[test]
fn test_unlock_range() {
    let mut sheet = create_test_spreadsheet(5, 5);
    let range = Range { start_row: 1, start_col: 1, end_row: 2, end_col: 2 };
    sheet.lock_range(range.clone());
    sheet.unlock_range(range.clone());
    assert!(sheet.locked_ranges.is_empty());
}

#[test]
fn test_unlock_range_not_present() {
    let mut sheet = create_test_spreadsheet(5, 5);
    let range = Range { start_row: 1, start_col: 1, end_row: 2, end_col: 2 };
    sheet.unlock_range(range);
    assert!(sheet.locked_ranges.is_empty());
}

#[test]
fn test_is_cell_locked_inside() {
    let mut sheet = create_test_spreadsheet(5, 5);
    let range = Range { start_row: 1, start_col: 1, end_row: 3, end_col: 3 };
    sheet.lock_range(range);
    assert!(sheet.is_cell_locked(2, 2));
}

#[test]
fn test_is_cell_locked_outside() {
    let mut sheet = create_test_spreadsheet(5, 5);
    let range = Range { start_row: 1, start_col: 1, end_row: 3, end_col: 3 };
    sheet.lock_range(range);
    assert!(!sheet.is_cell_locked(0, 0));
    assert!(!sheet.is_cell_locked(4, 4));
}

#[test]
fn test_is_cell_locked_boundary() {
    let mut sheet = create_test_spreadsheet(5, 5);
    let range = Range { start_row: 1, start_col: 1, end_row: 3, end_col: 3 };
    sheet.lock_range(range);
    assert!(sheet.is_cell_locked(1, 1));
    assert!(sheet.is_cell_locked(3, 3));
}

#[test]
fn test_is_cell_locked_multiple_ranges() {
    let mut sheet = create_test_spreadsheet(5, 5);
    let range1 = Range { start_row: 0, start_col: 0, end_row: 1, end_col: 1 };
    let range2 = Range { start_row: 3, start_col: 3, end_row: 4, end_col: 4 };
    sheet.lock_range(range1);
    sheet.lock_range(range2);
    assert!(sheet.is_cell_locked(0, 0));
    assert!(sheet.is_cell_locked(4, 4));
    assert!(!sheet.is_cell_locked(2, 2));
}

#[test]
fn test_set_last_edited() {
    let mut sheet = create_test_spreadsheet(5, 5);
    sheet.set_last_edited(2, 3);
    assert_eq!(sheet.last_edited, Some((2, 3)));
}

#[test]
fn test_scroll_to_last_edited_set() {
    let mut sheet = create_test_spreadsheet(5, 5);
    sheet.set_last_edited(2, 3);
    sheet.scroll_to_last_edited();
    assert_eq!(sheet.viewport_row, 2);
    assert_eq!(sheet.viewport_col, 3);
}

#[test]
fn test_scroll_to_last_edited_not_set() {
    let mut sheet = create_test_spreadsheet(5, 5);
    sheet.viewport_row = 1;
    sheet.viewport_col = 1;
    sheet.scroll_to_last_edited();
    assert_eq!(sheet.viewport_row, 1);
    assert_eq!(sheet.viewport_col, 1);
}

#[test]
fn test_get_cell_name_named_range() {
    let mut sheet = create_test_spreadsheet(5, 5);
    let range = Range { start_row: 0, start_col: 0, end_row: 0, end_col: 0 };
    sheet.named_ranges.insert("test".to_string(), range);
    assert_eq!(sheet.get_cell_name(0, 0), "test");
}

#[test]
fn test_get_cell_name_default() {
    let sheet = create_test_spreadsheet(5, 5);
    assert_eq!(sheet.get_cell_name(0, 0), "A1");
    assert_eq!(sheet.get_cell_name(1, 2), "C2");
}

#[test]
fn test_get_cell_name_multiple_named_ranges() {
    let mut sheet = create_test_spreadsheet(5, 5);
    let range1 = Range { start_row: 0, start_col: 0, end_row: 0, end_col: 0 };
    let range2 = Range { start_row: 1, start_col: 1, end_row: 1, end_col: 1 };
    sheet.named_ranges.insert("top_left".to_string(), range1);
    sheet.named_ranges.insert("center".to_string(), range2);
    assert_eq!(sheet.get_cell_name(0, 0), "top_left");
    assert_eq!(sheet.get_cell_name(1, 1), "center");
    assert_eq!(sheet.get_cell_name(2, 2), "C3");
}

#[test]
fn test_get_cell_name_no_matching_named_range() {
    let mut sheet = create_test_spreadsheet(5, 5);
    let range1 = Range { start_row: 1, start_col: 1, end_row: 1, end_col: 1 };
    let range2 = Range { start_row: 2, start_col: 2, end_row: 2, end_col: 2 };
    sheet.named_ranges.insert("B2".to_string(), range1);
    sheet.named_ranges.insert("C3".to_string(), range2);
    assert_eq!(sheet.get_cell_name(0, 0), "A1");
}

#[test]
fn test_get_cell_name_high_column() {
    let sheet = create_test_spreadsheet(5, 30);
    assert_eq!(sheet.get_cell_name(0, 25), "Z1");
    assert_eq!(sheet.get_cell_name(0, 26), "AA1");
}

#[test]
fn test_get_cell_name_row_numbers() {
    let sheet = create_test_spreadsheet(10, 5);
    assert_eq!(sheet.get_cell_name(0, 0), "A1");
    assert_eq!(sheet.get_cell_name(9, 0), "A10");
}
