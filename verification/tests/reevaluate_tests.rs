#![allow(unused_imports, unused_variables, unused_mut)]
use ferro_sheet::cell::{parse_cell_reference, Cell, CellValue};
use ferro_sheet::command::handle_command;
use ferro_sheet::evaluator::{evaluate_arithmetic, evaluate_formula, handle_sleep, resolve_cell_reference, set_cell_value};
use ferro_sheet::extensions::get_formula_string;
use ferro_sheet::formula::{eval_avg, eval_max, eval_min, eval_variance, parse_range, sum_value, Range};
use ferro_sheet::graph::{add_children, remove_all_parents};
use ferro_sheet::reevaluate_topo::{reevaluate_formula, sleep_fn, toposort_reval_detect_cycle};
use ferro_sheet::spreadsheet::{CellMeta, CommandStatus, HighlightType, RangeChild, Spreadsheet, MAX_COLS, MAX_ROWS};
use ferro_sheet::visualize::Visualization;

fn create_test_spreadsheet(rows: i16, cols: i16) -> Spreadsheet {
    Spreadsheet::create(rows, cols).unwrap()
}

fn status_of(r: Result<Visualization, CommandStatus>) -> CommandStatus {
    match r {
        Ok(_) => CommandStatus::CmdOk,
        Err(e) => e,
    }
}

#[test]
fn test_sleep_fn_positive() {
    let mut sheet = create_test_spreadsheet(5, 5);
    let mut sleep_time: u64 = 0;
    sleep_fn(&mut sheet, 0, 0, 5, &mut sleep_time);
    assert_eq!(*sheet.get_cell(0, 0), CellValue::Integer(5));
    assert_eq!(sleep_time, 5);
}

#[test]
fn test_sleep_fn_negative() {
    let mut sheet = create_test_spreadsheet(5, 5);
    let mut sleep_time: u64 = 0;
    sleep_fn(&mut sheet, 0, 0, -5, &mut sleep_time);
    assert_eq!(*sheet.get_cell(0, 0), CellValue::Integer(-5));
    assert_eq!(sleep_time, 0);
}

#[test]
fn test_cycle_prevention() {
    let mut sheet = create_test_spreadsheet(5, 5);
    *sheet.get_mut_cell(0, 0) = CellValue::Integer(1);
    let mut sleep_time: u64 = 0;
    assert_eq!(
        set_cell_value(&mut sheet, 1, 1, "A1", &mut sleep_time),
        CommandStatus::CmdOk
    );
    assert_eq!(
        set_cell_value(&mut sheet, 0, 0, "B2", &mut sleep_time),
        CommandStatus::CircularRef
    );
    assert!(!toposort_reval_detect_cycle(
        &mut sheet,
        0,
        0,
        &mut sleep_time
    ));
    assert_eq!(*sheet.get_cell(0, 0), CellValue::Integer(1)); // A1 unchanged
    assert_eq!(*sheet.get_cell(1, 1), CellValue::Integer(1)); // B2 still references A1
}

#[test]
fn test_toposort_reval_no_cycle() {
    let mut sheet = create_test_spreadsheet(5, 5);
    *sheet.get_mut_cell(0, 0) = CellValue::Integer(1);
    let mut sleep_time: u64 = 0;
    set_cell_value(&mut sheet, 1, 1, "A1", &mut sleep_time);
    assert!(!toposort_reval_detect_cycle(
        &mut sheet,
        1,
        1,
        &mut sleep_time
    ));
}

#[test]
fn reevaluating_a_reference_does_not_sleep() {
    let mut sheet = create_test_spreadsheet(5, 5);
    *sheet.get_mut_cell(0, 0) = CellValue::Integer(5);
    *sheet.get_cell_meta(1, 1) = CellMeta { formula: 82, parent1: 0, parent2: -1 };
    let mut sleep_time: u64 = 0;
    reevaluate_formula(&mut sheet, 1, 1, &mut sleep_time);
    assert_eq!(*sheet.get_cell(1, 1), CellValue::Integer(5));
    assert_eq!(sleep_time, 0);
    *sheet.get_cell_meta(1, 1) = CellMeta { formula: 102, parent1: 0, parent2: -1 };
    reevaluate_formula(&mut sheet, 1, 1, &mut sleep_time);
    assert_eq!(*sheet.get_cell(1, 1), CellValue::Integer(5));
    assert_eq!(sleep_time, 5);
}
