use ferro_sheet::cell::CellValue;
use ferro_sheet::recalculate::{recalculate_cell, update_dependent_cells};
use ferro_sheet::relationships::CellRelationships;
use ferro_sheet::spreadsheet::{CommandStatus, Spreadsheet};

fn sheet_with(values: &[(i16, i16, CellValue)]) -> Spreadsheet {
    let mut sheet = Spreadsheet::create(5, 5).unwrap();
    for (r, c, v) in values {
        *sheet.get_mut_cell(*r, *c) = *v;
    }
    sheet
}

fn key(r: i16, c: i16) -> i32 {
    r as i32 * 5 + c as i32
}

#[test]
fn recalc_without_formula_changes_nothing() {
    let mut sheet = sheet_with(&[(0, 0, CellValue::Integer(7))]);
    let rels = CellRelationships::new();
    let mut t = 3u64;
    assert_eq!(recalculate_cell(&mut sheet, &rels, 0, 0, &mut t), CommandStatus::CmdOk);
    assert_eq!(*sheet.get_cell(0, 0), CellValue::Integer(7));
    assert_eq!(t, 3);
}

#[test]
fn recalc_reference_copies_first_parent() {
    let mut sheet = sheet_with(&[(1, 1, CellValue::Integer(42))]);
    let mut rels = CellRelationships::new();
    rels.set_formula(key(0, 0), 82);
    rels.add_parent(key(0, 0), key(1, 1));
    let mut t = 0u64;
    assert_eq!(recalculate_cell(&mut sheet, &rels, 0, 0, &mut t), CommandStatus::CmdOk);
    assert_eq!(*sheet.get_cell(0, 0), CellValue::Integer(42));
    assert_eq!(t, 0);
}

#[test]
fn recalc_operations_on_two_parents() {
    let mut sheet = sheet_with(&[(1, 0, CellValue::Integer(17)), (1, 1, CellValue::Integer(5))]);
    let mut rels = CellRelationships::new();
    rels.add_parent(key(0, 0), key(1, 0));
    rels.add_parent(key(0, 0), key(1, 1));
    let mut t = 0u64;
    for (code, expected) in [(10, 22), (20, 12), (30, 3), (40, 85)] {
        rels.set_formula(key(0, 0), code);
        assert_eq!(recalculate_cell(&mut sheet, &rels, 0, 0, &mut t), CommandStatus::CmdOk);
        assert_eq!(*sheet.get_cell(0, 0), CellValue::Integer(expected));
    }
}

#[test]
fn recalc_division_by_zero_and_error_parent() {
    let mut sheet = sheet_with(&[(1, 0, CellValue::Integer(17)), (1, 1, CellValue::Integer(0))]);
    let mut rels = CellRelationships::new();
    rels.set_formula(key(0, 0), 30);
    rels.add_parent(key(0, 0), key(1, 0));
    rels.add_parent(key(0, 0), key(1, 1));
    let mut t = 0u64;
    recalculate_cell(&mut sheet, &rels, 0, 0, &mut t);
    assert_eq!(*sheet.get_cell(0, 0), CellValue::Error);
    *sheet.get_mut_cell(1, 1) = CellValue::Integer(2);
    *sheet.get_mut_cell(1, 0) = CellValue::Error;
    rels.set_formula(key(0, 0), 10);
    *sheet.get_mut_cell(0, 0) = CellValue::Integer(1);
    recalculate_cell(&mut sheet, &rels, 0, 0, &mut t);
    assert_eq!(*sheet.get_cell(0, 0), CellValue::Error);
}

#[test]
fn recalc_operation_with_one_parent_changes_nothing() {
    let mut sheet = sheet_with(&[(0, 0, CellValue::Integer(9)), (1, 0, CellValue::Integer(17))]);
    let mut rels = CellRelationships::new();
    rels.set_formula(key(0, 0), 10);
    rels.add_parent(key(0, 0), key(1, 0));
    let mut t = 0u64;
    assert_eq!(recalculate_cell(&mut sheet, &rels, 0, 0, &mut t), CommandStatus::CmdOk);
    assert_eq!(*sheet.get_cell(0, 0), CellValue::Integer(9));
}

#[test]
fn recalc_range_functions_over_the_parents_rectangle() {
    // Parents B2 and C3 span the rectangle B2:C3 holding 1, 2, 3, 6.
    let mut sheet = sheet_with(&[
        (1, 1, CellValue::Integer(1)),
        (1, 2, CellValue::Integer(2)),
        (2, 1, CellValue::Integer(3)),
        (2, 2, CellValue::Integer(6)),
    ]);
    let mut rels = CellRelationships::new();
    rels.add_parent(key(0, 0), key(2, 2));
    rels.add_parent(key(0, 0), key(1, 1));
    let mut t = 0u64;
    for (code, expected) in [(5, 12), (6, 3), (7, 1), (8, 6), (9, 2)] {
        rels.set_formula(key(0, 0), code);
        assert_eq!(recalculate_cell(&mut sheet, &rels, 0, 0, &mut t), CommandStatus::CmdOk);
        assert_eq!(*sheet.get_cell(0, 0), CellValue::Integer(expected), "code {}", code);
    }
}

#[test]
fn recalc_range_without_parents_is_an_error() {
    let mut sheet = sheet_with(&[]);
    let mut rels = CellRelationships::new();
    rels.set_formula(key(0, 0), 5);
    let mut t = 0u64;
    assert_eq!(recalculate_cell(&mut sheet, &rels, 0, 0, &mut t), CommandStatus::CmdOk);
    assert_eq!(*sheet.get_cell(0, 0), CellValue::Error);
}

#[test]
fn recalc_sleep_copies_and_sleeps() {
    let mut sheet = sheet_with(&[(2, 3, CellValue::Integer(4))]);
    let mut rels = CellRelationships::new();
    rels.set_formula(key(0, 0), 102);
    rels.add_parent(key(0, 0), key(2, 3));
    let mut t = 10u64;
    assert_eq!(recalculate_cell(&mut sheet, &rels, 0, 0, &mut t), CommandStatus::CmdOk);
    assert_eq!(*sheet.get_cell(0, 0), CellValue::Integer(4));
    assert_eq!(t, 14);
    *sheet.get_mut_cell(2, 3) = CellValue::Integer(-20);
    recalculate_cell(&mut sheet, &rels, 0, 0, &mut t);
    assert_eq!(*sheet.get_cell(0, 0), CellValue::Integer(-20));
    assert_eq!(t, 0);
}

#[test]
fn recalc_unknown_code_is_unrecognized() {
    let mut sheet = sheet_with(&[(0, 0, CellValue::Integer(3))]);
    let mut rels = CellRelationships::new();
    rels.set_formula(key(0, 0), 77);
    let mut t = 0u64;
    assert_eq!(recalculate_cell(&mut sheet, &rels, 0, 0, &mut t), CommandStatus::Unrecognized);
    assert_eq!(*sheet.get_cell(0, 0), CellValue::Integer(3));
}

#[test]
fn update_reaches_every_dependent_once() {
    // B1 = A1, C1 = A1 + B1, D1 = SLEEP(C1); E1 is not a dependent.
    let mut sheet = sheet_with(&[(0, 0, CellValue::Integer(3)), (0, 4, CellValue::Integer(99))]);
    let mut rels = CellRelationships::new();
    rels.set_formula(key(0, 1), 82);
    rels.add_parent(key(0, 1), key(0, 0));
    rels.add_child(key(0, 0), key(0, 1));
    rels.set_formula(key(0, 2), 10);
    rels.add_parent(key(0, 2), key(0, 0));
    rels.add_parent(key(0, 2), key(0, 1));
    rels.add_child(key(0, 0), key(0, 2));
    rels.add_child(key(0, 1), key(0, 2));
    rels.set_formula(key(0, 3), 102);
    rels.add_parent(key(0, 3), key(0, 2));
    rels.add_child(key(0, 2), key(0, 3));
    let mut t = 0u64;
    update_dependent_cells(&mut sheet, &rels, key(0, 0), &mut t);
    assert_eq!(*sheet.get_cell(0, 1), CellValue::Integer(3));
    // C1 may have been recalculated before B1 took its value: it reads B1 as 0 or 3.
    let c = *sheet.get_cell(0, 2);
    assert!(c == CellValue::Integer(3) || c == CellValue::Integer(6));
    assert_eq!(*sheet.get_cell(0, 3), c);
    if let CellValue::Integer(v) = c {
        assert_eq!(t, v as u64);
    }
    assert_eq!(*sheet.get_cell(0, 4), CellValue::Integer(99));
    assert_eq!(*sheet.get_cell(0, 0), CellValue::Integer(3));
}

#[test]
fn update_without_dependents_changes_nothing() {
    let mut sheet = sheet_with(&[(0, 0, CellValue::Integer(3))]);
    let rels = CellRelationships::new();
    let mut t = 5u64;
    update_dependent_cells(&mut sheet, &rels, key(0, 0), &mut t);
    assert_eq!(*sheet.get_cell(0, 0), CellValue::Integer(3));
    assert_eq!(t, 5);
}
