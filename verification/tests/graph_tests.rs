#![allow(unused_imports, unused_variables, unused_mut)]
use ferro_sheet::cell::{parse_cell_reference, Cell, CellValue};
use ferro_sheet::command::handle_command;
use ferro_sheet::evaluator::{evaluate_arithmetic, evaluate_formula, handle_sleep, resolve_cell_reference, set_cell_value};
use ferro_sheet::extensions::get_formula_string;
use ferro_sheet::formula::{eval_avg, eval_max, eval_min, eval_variance, parse_range, sum_value, Range};
use ferro_sheet::graph::{add_children, remove_all_parents};
use ferro_sheet::reevaluate_topo::{reevaluate_formula, sleep_fn, toposort_reval_detect_cycle};
use ferro_sheet::spreadsheet::{CellMeta, CommandStatus, HighlightType, RangeChild, Spreadsheet, MAX_COLS, MAX_ROWS};
use ferro_sheet::visualize::Visualization;

fn create_test_spreadsheet(rows: i16, cols: i16) -> Spreadsheet {
    Spreadsheet::create(rows, cols).unwrap()
}

fn status_of(r: Result<Visualization, CommandStatus>) -> CommandStatus {
    match r {
        Ok(_) => CommandStatus::CmdOk,
        Err(e) => e,
    }
}

#[test]
fn test_add_children_both_parents() {
    let mut sheet = create_test_spreadsheet(5, 5);
    let parent1 = sheet.get_key(0, 0);
    let parent2 = sheet.get_key(0, 1);
    let child = sheet.get_key(1, 1);
    add_children(&mut sheet, parent1, parent2, 0, 1, 1); // Formula type 0
    assert!(sheet.get_cell_children(parent1).unwrap().contains(&child));
    assert!(sheet.get_cell_children(parent2).unwrap().contains(&child));
}

#[test]
fn test_add_children_single_parent() {
    let mut sheet = create_test_spreadsheet(5, 5);
    let parent1 = sheet.get_key(0, 0);
    let child = sheet.get_key(1, 1);
    add_children(&mut sheet, parent1, -1, 2, 1, 1); // Formula type 2
    assert!(sheet.get_cell_children(parent1).unwrap().contains(&child));
    assert!(sheet.get_cell_children(-1).is_none());
}

#[test]
fn test_add_children_range() {
    let mut sheet = create_test_spreadsheet(5, 5);
    let parent1 = sheet.get_key(0, 0);
    let parent2 = sheet.get_key(1, 1);
    let child = sheet.get_key(2, 2);
    add_children(&mut sheet, parent1, parent2, 5, 2, 2); // Formula type 5 (SUM)
    let range_children = sheet.get_children(parent1);
    assert!(range_children.contains(&child));
    let range_children = sheet.get_children(parent2);
    assert!(range_children.contains(&child));
}

#[test]
fn test_remove_all_parents_no_meta() {
    let mut sheet = create_test_spreadsheet(5, 5);
    remove_all_parents(&mut sheet, 1, 1);
    assert!(!sheet.cell_meta.contains_key(&sheet.get_key(1, 1)));
}

#[test]
fn test_remove_all_parents_single_parent() {
    let mut sheet = create_test_spreadsheet(5, 5);
    let parent1 = sheet.get_key(0, 0);
    let child = sheet.get_key(1, 1);
    add_children(&mut sheet, parent1, -1, 2, 1, 1); 
    let meta = sheet.get_cell_meta(1, 1); 
    meta.parent1 = parent1;
    meta.formula = 2; 
    remove_all_parents(&mut sheet, 1, 1);
    let children = sheet.get_cell_children(parent1);
    assert!(children.is_none() || !children.unwrap().contains(&child));
}

#[test]
fn test_remove_all_parents_range() {
    let mut sheet = create_test_spreadsheet(5, 5);
    let parent1 = sheet.get_key(0, 0);
    let parent2 = sheet.get_key(1, 1);
    let child = sheet.get_key(2, 2);
    add_children(&mut sheet, parent1, parent2, 5, 2, 2); // adds range child
    let meta = sheet.get_cell_meta(2, 2); 
    meta.parent1 = parent1;
    meta.parent2 = parent2;
    meta.formula = 5;
    remove_all_parents(&mut sheet, 2, 2);
    let range_children1 = sheet.get_children(parent1);
    let range_children2 = sheet.get_children(parent2);
    assert!(!range_children1.contains(&child));
    assert!(!range_children2.contains(&child));
}

#[test]
fn add_children_without_formula_changes_nothing() {
    let mut sheet = create_test_spreadsheet(5, 5);
    sheet.add_child(&0, &6);
    add_children(&mut sheet, 0, 1, -1, 2, 2);
    assert!(sheet.get_children(0).contains(&6));
    assert!(!sheet.get_children(0).contains(&12));
    assert!(sheet.range_children.is_empty());
}
