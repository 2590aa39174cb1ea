#![allow(unused_imports, unused_variables, unused_mut)]
use ferro_sheet::cell::{parse_cell_reference, Cell, CellValue};
use ferro_sheet::command::handle_command;
use ferro_sheet::evaluator::{evaluate_arithmetic, evaluate_formula, handle_sleep, resolve_cell_reference, set_cell_value};
use ferro_sheet::extensions::get_formula_string;
use ferro_sheet::formula::{eval_avg, eval_max, eval_min, eval_variance, parse_range, sum_value, Range};
use ferro_sheet::graph::{add_children, remove_all_parents};
use ferro_sheet::reevaluate_topo::{reevaluate_formula, sleep_fn, toposort_reval_detect_cycle};
use ferro_sheet::spreadsheet::{CellMeta, CommandStatus, HighlightType, RangeChild, Spreadsheet, MAX_COLS, MAX_ROWS};
use ferro_sheet::visualize::Visualization;
use ferro_sheet::save_load::{load_spreadsheet, save_spreadsheet};

fn create_test_spreadsheet(rows: i16, cols: i16) -> Spreadsheet {
    Spreadsheet::create(rows, cols).unwrap()
}

fn status_of(r: Result<Visualization, CommandStatus>) -> CommandStatus {
    match r {
        Ok(_) => CommandStatus::CmdOk,
        Err(e) => e,
    }
}

#[test]
fn test_get_formula_string_basic_operations() {
    let mut sheet = Spreadsheet::create(10, 10).unwrap();

    // Test subtraction (A1 - B2)
    let a1_pos = sheet.get_key(0, 0);
    let b2_pos = sheet.get_key(1, 1);
    let meta = sheet.get_cell_meta(0, 1);
    meta.formula = 20; // 2 (subtraction) * 10 + 0 (both are cell refs)
    meta.parent1 = a1_pos;
    meta.parent2 = b2_pos;
    assert_eq!(get_formula_string(&sheet, 0, 1), "A1-B2");

    // Test multiplication (A1 * 5)
    let meta = sheet.get_cell_meta(0, 2);
    meta.formula = 43; // 4 (multiplication) * 10 + 3 (first is cell, second is literal)
    meta.parent1 = 5;
    meta.parent2 = a1_pos;
    assert_eq!(get_formula_string(&sheet, 0, 2), "5*A1");

    // Test division (10 / B2)
    let meta = sheet.get_cell_meta(0, 3);
    meta.formula = 32; // 3 (division) * 10 + 2 (first is literal, second is cell)
    meta.parent1 = b2_pos;
    meta.parent2 = 10;
    assert_eq!(get_formula_string(&sheet, 0, 3), "B2/10");
}

#[test]
fn test_get_formula_string_functions() {
    let mut sheet = Spreadsheet::create(10, 10).unwrap();

    let a1_pos = sheet.get_key(0, 0);
    let c3_pos = sheet.get_key(2, 2);

    // Test SUM function
    let meta = sheet.get_cell_meta(1, 1);
    meta.formula = 5; // Range function with code 5 for SUM
    meta.parent1 = a1_pos;
    meta.parent2 = c3_pos;
    assert_eq!(get_formula_string(&sheet, 1, 1), "SUM(A1:C3)");

    // Test AVG function
    let meta = sheet.get_cell_meta(1, 2);
    meta.formula = 6; // Range function with code 6 for AVG
    meta.parent1 = a1_pos;
    meta.parent2 = c3_pos;
    assert_eq!(get_formula_string(&sheet, 1, 2), "AVG(A1:C3)");

    // Test MIN function
    let meta = sheet.get_cell_meta(1, 3);
    meta.formula = 7; // Range function with code 7 for MIN
    meta.parent1 = a1_pos;
    meta.parent2 = c3_pos;
    assert_eq!(get_formula_string(&sheet, 1, 3), "MIN(A1:C3)");

    // Test MAX function
    let meta = sheet.get_cell_meta(1, 4);
    meta.formula = 8; // Range function with code 8 for MAX
    meta.parent1 = a1_pos;
    meta.parent2 = c3_pos;
    assert_eq!(get_formula_string(&sheet, 1, 4), "MAX(A1:C3)");

    // Test STDEV function
    let meta = sheet.get_cell_meta(1, 5);
    meta.formula = 9; // Range function with code 9 for STDEV
    meta.parent1 = a1_pos;
    meta.parent2 = c3_pos;
    assert_eq!(get_formula_string(&sheet, 1, 5), "STDEV(A1:C3)");
}

#[test]
fn test_get_formula_string_special_cases() {
    let mut sheet = Spreadsheet::create(10, 10).unwrap();

    let a1_pos = sheet.get_key(0, 0);

    // Test cell reference
    let meta = sheet.get_cell_meta(2, 0);
    meta.formula = 82; // Special formula for cell reference
    meta.parent1 = a1_pos;
    meta.parent2 = -1;
    assert_eq!(get_formula_string(&sheet, 2, 0), "A1");

    // Test SLEEP function
    let meta = sheet.get_cell_meta(2, 1);
    meta.formula = 102; // Special formula for SLEEP
    meta.parent1 = a1_pos;
    meta.parent2 = -1;
    assert_eq!(get_formula_string(&sheet, 2, 1), "SLEEP(A1)");

    // Test direct SLEEP function with code 102
    let meta = sheet.get_cell_meta(2, 2);
    meta.formula = 102;
    meta.parent1 = a1_pos;
    meta.parent2 = -1;
    assert_eq!(get_formula_string(&sheet, 2, 2), "SLEEP(A1)");
}

#[test]
fn test_get_formula_string_invalid_cases() {
    let mut sheet = Spreadsheet::create(10, 10).unwrap();

    // Test no formula
    let meta = sheet.get_cell_meta(3, 0);
    meta.formula = -1;
    meta.parent1 = -1;
    meta.parent2 = -1;
    assert_eq!(get_formula_string(&sheet, 3, 0), "No formula");
}

#[test]
fn test_load_spreadsheet_invalid_lines() {
    let mut sheet = Spreadsheet::create(5, 5).unwrap();
    let text = "INVALID_LINE\nCELL,A1,ERR\nCELL,A1,notanumber\nCELL,ZZZ,42\nCELL,A1,42,FORMULA,notanumber,A1,B1\nDIMS,notanumber,notanumber\n";
    // Should not panic, should continue on errors
    let status = load_spreadsheet(&mut sheet, text);
    assert_eq!(status, CommandStatus::CmdOk);
}

#[test]
fn test_load_spreadsheet_invalid_dims_warning() {
    let mut sheet = Spreadsheet::create(2, 2).unwrap();
    let status = load_spreadsheet(&mut sheet, "DIMS,10,10\n");
    assert_eq!(status, CommandStatus::CmdOk);
}

#[test]
fn test_load_spreadsheet_formula_parent_refs_empty() {
    let mut sheet = Spreadsheet::create(5, 5).unwrap();
    let status = load_spreadsheet(&mut sheet, "CELL,A1,42,FORMULA,10,,\n");
    assert_eq!(status, CommandStatus::CmdOk);
}

#[test]
fn test_load_spreadsheet_formula_parent_refs_parse_fail() {
    let mut sheet = Spreadsheet::create(5, 5).unwrap();
    let status = load_spreadsheet(&mut sheet, "CELL,A1,42,FORMULA,10,INVALID1,INVALID2\n");
    assert_eq!(status, CommandStatus::CmdOk);
}

#[test]
fn test_load_spreadsheet_formula_parent_refs_out_of_bounds() {
    let mut sheet = Spreadsheet::create(5, 5).unwrap();
    let status = load_spreadsheet(&mut sheet, "CELL,A1,42,FORMULA,10,Z10,Y20\n");
    assert_eq!(status, CommandStatus::CmdOk);
}
