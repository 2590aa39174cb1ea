#![allow(unused_imports, unused_variables, unused_mut)]
use ferro_sheet::cell::{parse_cell_reference, Cell, CellValue};
use ferro_sheet::command::handle_command;
use ferro_sheet::evaluator::{evaluate_arithmetic, evaluate_formula, handle_sleep, resolve_cell_reference, set_cell_value};
use ferro_sheet::extensions::get_formula_string;
use ferro_sheet::formula::{eval_avg, eval_max, eval_min, eval_variance, parse_range, sum_value, Range};
use ferro_sheet::graph::{add_children, remove_all_parents};
use ferro_sheet::reevaluate_topo::{reevaluate_formula, sleep_fn, toposort_reval_detect_cycle};
use ferro_sheet::spreadsheet::{CellMeta, CommandStatus, HighlightType, RangeChild, Spreadsheet, MAX_COLS, MAX_ROWS};
use ferro_sheet::visualize::Visualization;

fn create_test_spreadsheet(rows: i16, cols: i16) -> Spreadsheet {
    Spreadsheet::create(rows, cols).unwrap()
}

fn status_of(r: Result<Visualization, CommandStatus>) -> CommandStatus {
    match r {
        Ok(_) => CommandStatus::CmdOk,
        Err(e) => e,
    }
}

#[test]
fn formula_test_sum_value() {
    let mut sheet = create_test_spreadsheet(5, 5);
    *sheet.get_mut_cell(0, 0) = CellValue::Integer(1);
    *sheet.get_mut_cell(0, 1) = CellValue::Integer(2);
    let parent1 = sheet.get_key(0, 0);
    let parent2 = sheet.get_key(0, 1);
    assert_eq!(
        sum_value(&mut sheet, 1, 1, parent1, parent2),
        CommandStatus::CmdOk
    );
    assert_eq!(*sheet.get_cell(1, 1), CellValue::Integer(3));
}

#[test]
fn test_sum_value_error() {
    let mut sheet = create_test_spreadsheet(5, 5);
    *sheet.get_mut_cell(0, 0) = CellValue::Integer(1);
    *sheet.get_mut_cell(0, 1) = CellValue::Error;
    let parent1 = sheet.get_key(0, 0);
    let parent2 = sheet.get_key(0, 1);
    assert_eq!(
        sum_value(&mut sheet, 1, 1, parent1, parent2),
        CommandStatus::CmdOk
    );
    assert_eq!(*sheet.get_cell(1, 1), CellValue::Error);
}

#[test]
fn formula_test_eval_variance() {
    let mut sheet = create_test_spreadsheet(5, 5);
    *sheet.get_mut_cell(0, 0) = CellValue::Integer(2);
    *sheet.get_mut_cell(0, 1) = CellValue::Integer(4);
    let parent1 = sheet.get_key(0, 0);
    let parent2 = sheet.get_key(0, 1);
    assert_eq!(
        eval_variance(&mut sheet, 1, 1, parent1, parent2),
        CommandStatus::CmdOk
    );
    assert_eq!(*sheet.get_cell(1, 1), CellValue::Integer(1));
}

#[test]
fn test_eval_variance_error() {
    let mut sheet = create_test_spreadsheet(5, 5);
    *sheet.get_mut_cell(0, 0) = CellValue::Error;
    *sheet.get_mut_cell(0, 1) = CellValue::Integer(4);
    let parent1 = sheet.get_key(0, 0);
    let parent2 = sheet.get_key(0, 1);
    assert_eq!(
        eval_variance(&mut sheet, 1, 1, parent1, parent2),
        CommandStatus::CmdOk
    );
    assert_eq!(*sheet.get_cell(1, 1), CellValue::Error);
}

#[test]
fn test_eval_min() {
    let mut sheet = create_test_spreadsheet(5, 5);
    *sheet.get_mut_cell(0, 0) = CellValue::Integer(1);
    *sheet.get_mut_cell(0, 1) = CellValue::Integer(3);
    let parent1 = sheet.get_key(0, 0);
    let parent2 = sheet.get_key(0, 1);
    assert_eq!(
        eval_min(&mut sheet, 1, 1, parent1, parent2),
        CommandStatus::CmdOk
    );
    assert_eq!(*sheet.get_cell(1, 1), CellValue::Integer(1));
}

#[test]
fn test_eval_max() {
    let mut sheet = create_test_spreadsheet(5, 5);
    *sheet.get_mut_cell(0, 0) = CellValue::Integer(1);
    *sheet.get_mut_cell(0, 1) = CellValue::Integer(3);
    let parent1 = sheet.get_key(0, 0);
    let parent2 = sheet.get_key(0, 1);
    assert_eq!(
        eval_max(&mut sheet, 1, 2, parent1, parent2),
        CommandStatus::CmdOk
    );
    assert_eq!(*sheet.get_cell(1, 2), CellValue::Integer(3));
}

#[test]
fn test_eval_min_max_error() {
    let mut sheet = create_test_spreadsheet(5, 5);
    *sheet.get_mut_cell(0, 0) = CellValue::Integer(1);
    *sheet.get_mut_cell(0, 1) = CellValue::Error;
    let parent1 = sheet.get_key(0, 0);
    let parent2 = sheet.get_key(0, 1);
    assert_eq!(
        eval_min(&mut sheet, 1, 1, parent1, parent2),
        CommandStatus::CmdOk
    );
    assert_eq!(*sheet.get_cell(1, 1), CellValue::Error);
    assert_eq!(
        eval_max(&mut sheet, 1, 2, parent1, parent2),
        CommandStatus::CmdOk
    );
    assert_eq!(*sheet.get_cell(1, 2), CellValue::Error);
}

#[test]
fn test_eval_avg() {
    let mut sheet = create_test_spreadsheet(5, 5);
    *sheet.get_mut_cell(0, 0) = CellValue::Integer(2);
    *sheet.get_mut_cell(0, 1) = CellValue::Integer(4);
    let parent1 = sheet.get_key(0, 0);
    let parent2 = sheet.get_key(0, 1);
    assert_eq!(
        eval_avg(&mut sheet, 1, 1, parent1, parent2),
        CommandStatus::CmdOk
    );
    assert_eq!(*sheet.get_cell(1, 1), CellValue::Integer(3));
}

#[test]
fn test_parse_range_valid() {
    let sheet = create_test_spreadsheet(5, 5);
    let range = parse_range(&sheet, "A1:B2").unwrap();
    assert_eq!(range.start_row, 0);
    assert_eq!(range.start_col, 0);
    assert_eq!(range.end_row, 1);
    assert_eq!(range.end_col, 1);
}

#[test]
fn test_parse_range_invalid() {
    let sheet = create_test_spreadsheet(5, 5);
    assert_eq!(
        parse_range(&sheet, "A"),
        Err(CommandStatus::Unrecognized)
    );
    assert_eq!(
        parse_range(&sheet, "A1:"),
        Err(CommandStatus::Unrecognized)
    );
    assert_eq!(
        parse_range(&sheet, ":A1"),
        Err(CommandStatus::Unrecognized)
    );
    assert_eq!(
        parse_range(&sheet, "B2:A1"),
        Err(CommandStatus::Unrecognized)
    );
}
