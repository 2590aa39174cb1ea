#![allow(unused_imports, unused_variables, unused_mut)]
use ferro_sheet::cell::{parse_cell_reference, Cell, CellValue};
use ferro_sheet::command::handle_command;
use ferro_sheet::evaluator::{evaluate_arithmetic, evaluate_formula, handle_sleep, resolve_cell_reference, set_cell_value};
use ferro_sheet::extensions::get_formula_string;
use ferro_sheet::formula::{eval_avg, eval_max, eval_min, eval_variance, parse_range, sum_value, Range};
use ferro_sheet::graph::{add_children, remove_all_parents};
use ferro_sheet::reevaluate_topo::{reevaluate_formula, sleep_fn, toposort_reval_detect_cycle};
use ferro_sheet::spreadsheet::{CellMeta, CommandStatus, HighlightType, RangeChild, Spreadsheet, MAX_COLS, MAX_ROWS};
use ferro_sheet::visualize::Visualization;
use ferro_sheet::save_load::{clear_sheet, load_spreadsheet, save_spreadsheet};

fn create_test_spreadsheet(rows: i16, cols: i16) -> Spreadsheet {
    Spreadsheet::create(rows, cols).unwrap()
}


fn run(sheet: &mut Spreadsheet, cmd: &str) {
    let mut sleep_time: u64 = 0;
    handle_command(sheet, cmd, &mut sleep_time);
}

fn value_at(sheet: &Spreadsheet, row: i16, col: i16) -> CellValue {
    *sheet.get_cell(row, col)
}

#[test]
fn test_save_empty_spreadsheet() {
    let sheet = Spreadsheet::create(10, 10).unwrap();
    let text = save_spreadsheet(&sheet);
    assert_eq!(text, "DIMS,10,10\n");
}

#[test]
fn test_save_spreadsheet_with_values() {
    let mut sheet = Spreadsheet::create(10, 10).unwrap();
    run(&mut sheet, "A1=10");
    run(&mut sheet, "B2=20");
    run(&mut sheet, "C3=30");
    let content = save_spreadsheet(&sheet);
    assert!(content.contains("DIMS,10,10"));
    assert!(content.contains("CELL,A1,10"));
    assert!(content.contains("CELL,B2,20"));
    assert!(content.contains("CELL,C3,30"));
}

#[test]
fn test_save_spreadsheet_with_formulas() {
    let mut sheet = Spreadsheet::create(10, 10).unwrap();
    run(&mut sheet, "A1=10");
    run(&mut sheet, "B1=20");
    run(&mut sheet, "C1=A1+B1");
    run(&mut sheet, "D1=A1*B1");
    let content = save_spreadsheet(&sheet);
    assert!(content.contains("DIMS,10,10"));
    assert!(content.contains("CELL,A1,10"));
    assert!(content.contains("CELL,B1,20"));
    assert!(content.contains("CELL,C1,30,FORMULA,10,A1,B1"));
    assert!(content.contains("CELL,D1,200,FORMULA,40,A1,B1"));
}

#[test]
fn test_save_spreadsheet_with_error_cells() {
    let mut sheet = Spreadsheet::create(10, 10).unwrap();
    run(&mut sheet, "A1=10");
    run(&mut sheet, "B1=0");
    run(&mut sheet, "C1=A1/B1");
    let content = save_spreadsheet(&sheet);
    assert!(content.contains("CELL,C1,ERR,FORMULA,30,A1,B1"));
}

#[test]
fn test_load_spreadsheet_basic() {
    let mut saved_sheet = Spreadsheet::create(10, 10).unwrap();
    run(&mut saved_sheet, "A1=10");
    run(&mut saved_sheet, "B2=20");
    run(&mut saved_sheet, "C3=30");
    let text = save_spreadsheet(&saved_sheet);
    let mut loaded_sheet = Spreadsheet::create(10, 10).unwrap();
    let result = load_spreadsheet(&mut loaded_sheet, &text);
    assert_eq!(result, CommandStatus::CmdOk);
    assert_eq!(value_at(&loaded_sheet, 0, 0), CellValue::Integer(10));
    assert_eq!(value_at(&loaded_sheet, 1, 1), CellValue::Integer(20));
    assert_eq!(value_at(&loaded_sheet, 2, 2), CellValue::Integer(30));
}

#[test]
fn test_load_spreadsheet_with_formulas() {
    let mut saved_sheet = Spreadsheet::create(10, 10).unwrap();
    run(&mut saved_sheet, "A1=10");
    run(&mut saved_sheet, "B1=20");
    run(&mut saved_sheet, "C1=A1+B1");
    run(&mut saved_sheet, "D1=A1*B1");
    let text = save_spreadsheet(&saved_sheet);
    let mut loaded_sheet = Spreadsheet::create(10, 10).unwrap();
    let result = load_spreadsheet(&mut loaded_sheet, &text);
    assert_eq!(result, CommandStatus::CmdOk);
    assert_eq!(value_at(&loaded_sheet, 0, 2), CellValue::Integer(30));
    assert_eq!(value_at(&loaded_sheet, 0, 3), CellValue::Integer(200));
    run(&mut loaded_sheet, "A1=5");
    assert_eq!(value_at(&loaded_sheet, 0, 2), CellValue::Integer(25));
    assert_eq!(value_at(&loaded_sheet, 0, 3), CellValue::Integer(100));
}

#[test]
fn test_load_spreadsheet_with_error_cells() {
    let mut saved_sheet = Spreadsheet::create(10, 10).unwrap();
    run(&mut saved_sheet, "A1=10");
    run(&mut saved_sheet, "B1=0");
    run(&mut saved_sheet, "C1=A1/B1");
    let text = save_spreadsheet(&saved_sheet);
    let mut loaded_sheet = Spreadsheet::create(10, 10).unwrap();
    let result = load_spreadsheet(&mut loaded_sheet, &text);
    assert_eq!(result, CommandStatus::CmdOk);
    assert_eq!(value_at(&loaded_sheet, 0, 2), CellValue::Error);
    run(&mut loaded_sheet, "B1=2");
    assert_eq!(value_at(&loaded_sheet, 0, 2), CellValue::Integer(5));
}

#[test]
fn test_load_spreadsheet_with_incorrect_format() {
    let content = "This is not a valid spreadsheet file\nIt has no proper format";
    let mut sheet = Spreadsheet::create(10, 10).unwrap();
    let result = load_spreadsheet(&mut sheet, content);
    assert_eq!(result, CommandStatus::CmdOk);
    for row in 0..sheet.rows {
        for col in 0..sheet.cols {
            assert_eq!(value_at(&sheet, row, col), CellValue::Integer(0));
        }
    }
}

#[test]
fn test_load_spreadsheet_with_larger_dimensions() {
    let content = "DIMS,20,20\nCELL,T20,100";
    let mut sheet = Spreadsheet::create(10, 10).unwrap();
    let result = load_spreadsheet(&mut sheet, content);
    assert_eq!(result, CommandStatus::CmdOk);
}

#[test]
fn test_save_and_load_complex_spreadsheet() {
    let mut saved_sheet = Spreadsheet::create(10, 10).unwrap();
    run(&mut saved_sheet, "A2=100");
    run(&mut saved_sheet, "A3=120");
    run(&mut saved_sheet, "A4=150");
    run(&mut saved_sheet, "B2=80");
    run(&mut saved_sheet, "B3=90");
    run(&mut saved_sheet, "B4=100");
    run(&mut saved_sheet, "C2=A2-B2");
    run(&mut saved_sheet, "C3=A3-B3");
    run(&mut saved_sheet, "C4=A4-B4");
    run(&mut saved_sheet, "D2=C2+C3");
    let text = save_spreadsheet(&saved_sheet);
    let mut loaded_sheet = Spreadsheet::create(10, 10).unwrap();
    let result = load_spreadsheet(&mut loaded_sheet, &text);
    assert_eq!(result, CommandStatus::CmdOk);
    assert_eq!(value_at(&loaded_sheet, 1, 2), CellValue::Integer(20));
    assert_eq!(value_at(&loaded_sheet, 2, 2), CellValue::Integer(30));
    assert_eq!(value_at(&loaded_sheet, 3, 2), CellValue::Integer(50));
    assert_eq!(value_at(&loaded_sheet, 1, 3), CellValue::Integer(50));
    run(&mut loaded_sheet, "A2=200");
    assert_eq!(value_at(&loaded_sheet, 1, 2), CellValue::Integer(120));
    assert_eq!(value_at(&loaded_sheet, 1, 3), CellValue::Integer(150));
}

#[test]
fn test_save_and_load_idempotency() {
    let mut saved_sheet = Spreadsheet::create(10, 10).unwrap();
    run(&mut saved_sheet, "A1=10");
    run(&mut saved_sheet, "B1=20");
    run(&mut saved_sheet, "C1=A1+B1");
    run(&mut saved_sheet, "D1=C1*2");
    let text1 = save_spreadsheet(&saved_sheet);
    let mut loaded_sheet1 = Spreadsheet::create(10, 10).unwrap();
    load_spreadsheet(&mut loaded_sheet1, &text1);
    let text2 = save_spreadsheet(&loaded_sheet1);
    let mut loaded_sheet2 = Spreadsheet::create(10, 10).unwrap();
    load_spreadsheet(&mut loaded_sheet2, &text2);
    assert_eq!(value_at(&loaded_sheet2, 0, 0), CellValue::Integer(10));
    assert_eq!(value_at(&loaded_sheet2, 0, 1), CellValue::Integer(20));
    assert_eq!(value_at(&loaded_sheet2, 0, 2), CellValue::Integer(30));
    assert_eq!(value_at(&loaded_sheet2, 0, 3), CellValue::Integer(60));
    run(&mut loaded_sheet2, "A1=15");
    assert_eq!(value_at(&loaded_sheet2, 0, 2), CellValue::Integer(35));
    assert_eq!(value_at(&loaded_sheet2, 0, 3), CellValue::Integer(70));
}

#[test]
fn test_load_overwrites_existing_data() {
    let mut saved_sheet = Spreadsheet::create(10, 10).unwrap();
    run(&mut saved_sheet, "A1=100");
    run(&mut saved_sheet, "B1=200");
    let text = save_spreadsheet(&saved_sheet);
    let mut sheet_to_overwrite = Spreadsheet::create(10, 10).unwrap();
    run(&mut sheet_to_overwrite, "A1=999");
    run(&mut sheet_to_overwrite, "A2=888");
    run(&mut sheet_to_overwrite, "A3=777");
    load_spreadsheet(&mut sheet_to_overwrite, &text);
    assert_eq!(value_at(&sheet_to_overwrite, 0, 0), CellValue::Integer(100));
    assert_eq!(value_at(&sheet_to_overwrite, 0, 1), CellValue::Integer(200));
    assert_eq!(value_at(&sheet_to_overwrite, 1, 0), CellValue::Integer(0));
    assert_eq!(value_at(&sheet_to_overwrite, 2, 0), CellValue::Integer(0));
}

#[test]
fn test_clear_existing_spreadsheet_removes_metadata_and_parents() {
    let mut sheet = Spreadsheet::create(3, 3).unwrap();
    let key = sheet.get_key(1, 1);
    sheet.cell_meta.insert(key, CellMeta { formula: 10, parent1: 0, parent2: 0 });
    let idx = sheet.get_index(1, 1);
    sheet.grid[idx] = CellValue::Integer(99);
    for row in 0..sheet.rows {
        for col in 0..sheet.cols {
            let key = sheet.get_key(row, col);
            let idx = sheet.get_index(row, col);
            sheet.grid[idx] = CellValue::Integer(0);
            if sheet.cell_meta.contains_key(&key) {
                remove_all_parents(&mut sheet, row, col);
                sheet.cell_meta.remove(&key);
            }
        }
    }
    assert!(sheet.cell_meta.is_empty());
    assert_eq!(*sheet.get_cell(1, 1), CellValue::Integer(0));
}

#[test]
fn clear_sheet_resets_values_and_formulas() {
    let mut sheet = Spreadsheet::create(3, 3).unwrap();
    run(&mut sheet, "A1=4");
    run(&mut sheet, "B1=A1+1");
    clear_sheet(&mut sheet);
    assert!(sheet.cell_meta.is_empty());
    assert!(sheet.children.is_empty());
    assert_eq!(value_at(&sheet, 0, 1), CellValue::Integer(0));
}

#[test]
fn load_reads_formula_lines() {
    let mut sheet = Spreadsheet::create(5, 5).unwrap();
    load_spreadsheet(&mut sheet, "DIMS,5,5\r\nCELL,A1,3\nCELL,B1,4,FORMULA,10,A1,A1\n");
    assert_eq!(value_at(&sheet, 0, 0), CellValue::Integer(3));
    assert_eq!(value_at(&sheet, 0, 1), CellValue::Integer(4));
    let meta = sheet.cell_meta.get(&sheet.get_key(0, 1)).unwrap();
    assert_eq!(meta.formula, 10);
    assert_eq!(meta.parent1, 0);
    assert_eq!(meta.parent2, 0);
    run(&mut sheet, "A1=7");
    assert_eq!(value_at(&sheet, 0, 1), CellValue::Integer(14));
}

#[test]
fn load_round_trip_keeps_values() {
    let mut sheet = Spreadsheet::create(4, 4).unwrap();
    run(&mut sheet, "A1=-12");
    run(&mut sheet, "B2=SUM(A1:A1)");
    run(&mut sheet, "C3=A1/0");
    let text = save_spreadsheet(&sheet);
    let mut other = Spreadsheet::create(4, 4).unwrap();
    load_spreadsheet(&mut other, &text);
    assert_eq!(other.grid, sheet.grid);
    assert_eq!(save_spreadsheet(&other), text);
}
