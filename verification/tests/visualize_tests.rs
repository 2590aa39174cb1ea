#![allow(unused_imports, unused_variables, unused_mut)]
use ferro_sheet::cell::{parse_cell_reference, Cell, CellValue};
use ferro_sheet::command::handle_command;
use ferro_sheet::evaluator::{evaluate_arithmetic, evaluate_formula, handle_sleep, resolve_cell_reference, set_cell_value};
use ferro_sheet::extensions::get_formula_string;
use ferro_sheet::formula::{eval_avg, eval_max, eval_min, eval_variance, parse_range, sum_value, Range};
use ferro_sheet::graph::{add_children, remove_all_parents};
use ferro_sheet::reevaluate_topo::{reevaluate_formula, sleep_fn, toposort_reval_detect_cycle};
use ferro_sheet::spreadsheet::{CellMeta, CommandStatus, HighlightType, RangeChild, Spreadsheet, MAX_COLS, MAX_ROWS};
use ferro_sheet::visualize::Visualization;

fn create_test_spreadsheet(rows: i16, cols: i16) -> Spreadsheet {
    Spreadsheet::create(rows, cols).unwrap()
}

fn status_of(r: Result<Visualization, CommandStatus>) -> CommandStatus {
    match r {
        Ok(_) => CommandStatus::CmdOk,
        Err(e) => e,
    }
}

#[test]
fn test_visualize_cell_invalid() {
    let sheet = create_test_spreadsheet(5, 5);
    assert_eq!(
        status_of(sheet.visualize_cell_relationships(5, 5)),
        CommandStatus::InvalidCell
    );
}

#[test]
fn test_visualize_cell_with_parents() {
    let mut sheet = create_test_spreadsheet(5, 5);
    sheet.get_cell_meta(1, 1).parent1 = sheet.get_key(0, 0);
    assert_eq!(
        status_of(sheet.visualize_cell_relationships(1, 1)),
        CommandStatus::CmdOk
    );
}

#[test]
fn test_visualize_cell_with_children() {
    let mut sheet = create_test_spreadsheet(5, 5);
    sheet.add_child(&sheet.get_key(0, 0), &sheet.get_key(1, 1));
    assert_eq!(
        status_of(sheet.visualize_cell_relationships(0, 0)),
        CommandStatus::CmdOk
    );
}

#[test]
fn test_visualize_range_child() {
    let mut sheet = create_test_spreadsheet(5, 5);
    sheet.add_range_child(
        sheet.get_key(0, 0),
        sheet.get_key(1, 1),
        sheet.get_key(2, 2),
    );
    assert_eq!(
        status_of(sheet.visualize_cell_relationships(2, 2)),
        CommandStatus::CmdOk
    );
}

#[test]
fn test_visualize_cell_with_multiple_parents() {
    let mut sheet = create_test_spreadsheet(5, 5);
    sheet.get_cell_meta(1, 1).parent1 = sheet.get_key(0, 0);
    sheet.get_cell_meta(1, 1).parent2 = sheet.get_key(0, 1);
    assert_eq!(
        status_of(sheet.visualize_cell_relationships(1, 1)),
        CommandStatus::CmdOk
    );
}

#[test]
fn test_visualize_cell_no_relationships() {
    let sheet = create_test_spreadsheet(5, 5);
    assert_eq!(
        status_of(sheet.visualize_cell_relationships(0, 0)),
        CommandStatus::CmdOk
    );
}

#[test]
fn test_visualize_range_parent() {
    let mut sheet = create_test_spreadsheet(5, 5);
    let cell_key = sheet.get_key(2, 2);
    sheet.range_children.push(RangeChild {
        start_key: sheet.get_key(0, 0),
        end_key: sheet.get_key(1, 1),
        child_key: cell_key,
    });
    assert_eq!(
        status_of(sheet.visualize_cell_relationships(2, 2)),
        CommandStatus::CmdOk
    );
}

#[test]
fn test_visualize_cell_in_range_child() {
    let mut sheet = create_test_spreadsheet(5, 5);
    let cell_key = sheet.get_key(0, 0);
    sheet.range_children.push(RangeChild {
        start_key: cell_key,
        end_key: sheet.get_key(1, 1),
        child_key: sheet.get_key(2, 2),
    });
    assert_eq!(
        status_of(sheet.visualize_cell_relationships(0, 0)),
        CommandStatus::CmdOk
    );
}

#[test]
fn test_visualize_cell_with_large_integer() {
    let mut sheet = create_test_spreadsheet(5, 5);
    *sheet.get_mut_cell(0, 0) = CellValue::Integer(1_000_000);
    assert_eq!(
        status_of(sheet.visualize_cell_relationships(0, 0)),
        CommandStatus::CmdOk
    );
}

#[test]
fn test_visualize_cell_negative_coordinates() {
    let sheet = create_test_spreadsheet(5, 5);
    assert_eq!(
        status_of(sheet.visualize_cell_relationships(-1, 0)),
        CommandStatus::InvalidCell
    );
}
