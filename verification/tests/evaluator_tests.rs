use ferro_sheet::cell::CellValue;
use ferro_sheet::command::handle_command;
use ferro_sheet::evaluator::{evaluate_arithmetic, evaluate_formula, handle_sleep, resolve_cell_reference, set_cell_value};
use ferro_sheet::formula::Range;
use ferro_sheet::spreadsheet::{CommandStatus, HighlightType, Spreadsheet};

fn create_test_spreadsheet(rows: i16, cols: i16) -> Spreadsheet {
    Spreadsheet::create(rows, cols).unwrap()
}

#[test]
fn evaluator_test_handle_sleep_with_reference() {
    let mut sheet = create_test_spreadsheet(5, 5);
    *sheet.get_mut_cell(0, 0) = CellValue::Integer(5);
    let mut sleep_time: u64 = 0;
    assert_eq!(
        handle_sleep(&mut sheet, 1, 1, "A1", &mut sleep_time),
        CommandStatus::CmdOk
    );
    assert_eq!(*sheet.get_cell(1, 1), CellValue::Integer(5));
    assert_eq!(sleep_time, 5);
    let meta = sheet.cell_meta.get(&sheet.get_key(1, 1)).unwrap();
    assert_eq!(meta.formula, 102);
    assert_eq!(meta.parent1, sheet.get_key(0, 0));
}

#[test]
fn evaluator_test_handle_sleep_with_literal() {
    let mut sheet = create_test_spreadsheet(5, 5);
    let mut sleep_time: u64 = 0;
    assert_eq!(
        handle_sleep(&mut sheet, 1, 1, "3", &mut sleep_time),
        CommandStatus::CmdOk
    );
    assert_eq!(*sheet.get_cell(1, 1), CellValue::Integer(3));
    assert_eq!(sleep_time, 3);
    assert!(!sheet.cell_meta.contains_key(&sheet.get_key(1, 1)));
}

#[test]
fn test_handle_sleep_invalid() {
    let mut sheet = create_test_spreadsheet(5, 5);
    let mut sleep_time: u64 = 0;
    assert_eq!(
        handle_sleep(&mut sheet, 1, 1, "INVALID", &mut sleep_time),
        CommandStatus::Unrecognized
    );
}

#[test]
fn test_handle_sleep_self_reference() {
    let mut sheet = create_test_spreadsheet(5, 5);
    let mut sleep_time: u64 = 0;
    assert_eq!(
        handle_sleep(&mut sheet, 1, 1, "B2", &mut sleep_time),
        CommandStatus::CircularRef
    );
}

#[test]
fn evaluator_test_evaluate_arithmetic_literal() {
    let mut sheet = create_test_spreadsheet(5, 5);
    assert_eq!(
        evaluate_arithmetic(&mut sheet, 0, 0, "42"),
        CommandStatus::CmdOk
    );
    assert_eq!(*sheet.get_cell(0, 0), CellValue::Integer(42));
    assert!(!sheet.cell_meta.contains_key(&sheet.get_key(0, 0)));
}

#[test]
fn evaluator_test_evaluate_arithmetic_cell_ref() {
    let mut sheet = create_test_spreadsheet(5, 5);
    *sheet.get_mut_cell(0, 0) = CellValue::Integer(10);
    assert_eq!(
        evaluate_arithmetic(&mut sheet, 1, 1, "A1"),
        CommandStatus::CmdOk
    );
    assert_eq!(*sheet.get_cell(1, 1), CellValue::Integer(10));
    let meta = sheet.cell_meta.get(&sheet.get_key(1, 1)).unwrap();
    assert_eq!(meta.formula, 82);
    assert_eq!(meta.parent1, sheet.get_key(0, 0));
}

#[test]
fn evaluator_test_evaluate_arithmetic_binary_add() {
    let mut sheet = create_test_spreadsheet(5, 5);
    *sheet.get_mut_cell(0, 0) = CellValue::Integer(5);
    assert_eq!(
        evaluate_arithmetic(&mut sheet, 1, 1, "A1+3"),
        CommandStatus::CmdOk
    );
    assert_eq!(*sheet.get_cell(1, 1), CellValue::Integer(8));
    let meta = sheet.cell_meta.get(&sheet.get_key(1, 1)).unwrap();
    assert_eq!(meta.formula, 12);
    assert_eq!(meta.parent1, sheet.get_key(0, 0));
    assert_eq!(meta.parent2, 3);
}

#[test]
fn test_evaluate_arithmetic_binary_div_zero() {
    let mut sheet = create_test_spreadsheet(5, 5);
    *sheet.get_mut_cell(0, 0) = CellValue::Integer(5);
    assert_eq!(
        evaluate_arithmetic(&mut sheet, 1, 1, "A1/0"),
        CommandStatus::CmdOk
    );
    assert_eq!(*sheet.get_cell(1, 1), CellValue::Error);
}

#[test]
fn evaluator_test_evaluate_formula_sum() {
    let mut sheet = create_test_spreadsheet(5, 5);
    *sheet.get_mut_cell(0, 0) = CellValue::Integer(1);
    *sheet.get_mut_cell(0, 1) = CellValue::Integer(2);
    let mut sleep_time: u64 = 0;
    assert_eq!(
        evaluate_formula(&mut sheet, 1, 1, "SUM(A1:B1)", &mut sleep_time),
        CommandStatus::CmdOk
    );
    assert_eq!(*sheet.get_cell(1, 1), CellValue::Integer(3));
    let meta = sheet.cell_meta.get(&sheet.get_key(1, 1)).unwrap();
    assert_eq!(meta.formula, 5);
}

#[test]
fn test_evaluate_formula_invalid() {
    let mut sheet = create_test_spreadsheet(5, 5);
    let mut sleep_time: u64 = 0;
    assert_eq!(
        evaluate_formula(&mut sheet, 1, 1, "SUM(A1)", &mut sleep_time),
        CommandStatus::Unrecognized
    );
}

#[test]
fn test_set_cell_value_with_cycle() {
    let mut sheet = create_test_spreadsheet(5, 5);
    let mut sleep_time: u64 = 0;
    assert_eq!(
        set_cell_value(&mut sheet, 0, 0, "A1", &mut sleep_time),
        CommandStatus::CircularRef
    );
}

#[test]
fn test_handle_command_scroll() {
    let mut sheet = create_test_spreadsheet(50, 50);
    let mut sleep_time: u64 = 0;
    assert_eq!(
        handle_command(&mut sheet, "s", &mut sleep_time),
        CommandStatus::CmdOk
    );
    assert_eq!(sheet.viewport_row, 10);
    assert_eq!(
        handle_command(&mut sheet, "d", &mut sleep_time),
        CommandStatus::CmdOk
    );
    assert_eq!(sheet.viewport_col, 10);
}

#[test]
fn test_handle_command_output_toggle() {
    let mut sheet = create_test_spreadsheet(5, 5);
    let mut sleep_time: u64 = 0;
    assert_eq!(
        handle_command(&mut sheet, "disable_output", &mut sleep_time),
        CommandStatus::CmdOk
    );
    assert!(!sheet.output_enabled);
    assert_eq!(
        handle_command(&mut sheet, "enable_output", &mut sleep_time),
        CommandStatus::CmdOk
    );
    assert!(sheet.output_enabled);
}

#[test]
fn test_handle_command_visualize() {
    let mut sheet = create_test_spreadsheet(5, 5);
    let mut sleep_time: u64 = 0;
    assert_eq!(
        handle_command(&mut sheet, "visual A1", &mut sleep_time),
        CommandStatus::CmdOk
    );
    assert_eq!(
        handle_command(&mut sheet, "visual Z9", &mut sleep_time),
        CommandStatus::Unrecognized
    );
}

#[test]
fn evaluator_test_handle_command_scroll_to() {
    let mut sheet = create_test_spreadsheet(50, 50);
    let mut sleep_time: u64 = 0;
    assert_eq!(
        handle_command(&mut sheet, "scroll_to B2", &mut sleep_time),
        CommandStatus::CmdOk
    );
    assert_eq!(sheet.viewport_row, 1);
    assert_eq!(sheet.viewport_col, 1);
}

#[test]
fn test_handle_command_assignment() {
    let mut sheet = create_test_spreadsheet(5, 5);
    let mut sleep_time: u64 = 0;
    assert_eq!(
        handle_command(&mut sheet, "A1=42", &mut sleep_time),
        CommandStatus::CmdOk
    );
    assert_eq!(*sheet.get_cell(0, 0), CellValue::Integer(42));
}

#[test]
fn evaluator_test_set_cell_value_circular_ref() {
    let mut sheet = create_test_spreadsheet(5, 5);
    let mut sleep_time: u64 = 0;
    assert_eq!(
        set_cell_value(&mut sheet, 0, 0, "A1", &mut sleep_time),
        CommandStatus::CircularRef
    );
    assert_eq!(*sheet.get_cell(0, 0), CellValue::Integer(0));
}

#[test]
fn evaluator_test_handle_command_last_edit() {
    let mut sheet = create_test_spreadsheet(5, 5);
    let mut sleep_time: u64 = 0;
    handle_command(&mut sheet, "B2=42", &mut sleep_time);
    assert_eq!(sheet.last_edited, Some((1, 1)));
    assert_eq!(
        handle_command(&mut sheet, "last_edit", &mut sleep_time),
        CommandStatus::CmdOk
    );
    assert_eq!(sheet.viewport_row, 1);
    assert_eq!(sheet.viewport_col, 1);
}

#[test]
fn evaluator_test_handle_command_lock_cell() {
    let mut sheet = create_test_spreadsheet(5, 5);
    let mut sleep_time: u64 = 0;
    assert_eq!(
        handle_command(&mut sheet, "lock_cell B2", &mut sleep_time),
        CommandStatus::CmdOk
    );
    assert!(sheet.is_cell_locked(1, 1));
}

#[test]
fn evaluator_test_handle_command_history() {
    let mut sheet = create_test_spreadsheet(5, 5);
    let mut sleep_time: u64 = 0;
    assert_eq!(
        handle_command(&mut sheet, "A2=2", &mut sleep_time),
        CommandStatus::CmdOk
    );
    assert_eq!(
        handle_command(&mut sheet, "A2=3", &mut sleep_time),
        CommandStatus::CmdOk
    );
    assert_eq!(
        handle_command(&mut sheet, "history A2", &mut sleep_time),
        CommandStatus::CmdOk
    );
    assert_eq!(*sheet.get_cell(1, 0), CellValue::Integer(2));
    assert_eq!(sheet.last_edited, Some((1, 0)));
}

#[test]
fn evaluator_test_evaluate_formula_max() {
    let mut sheet = create_test_spreadsheet(5, 5);
    *sheet.get_mut_cell(0, 0) = CellValue::Integer(5);
    *sheet.get_mut_cell(0, 1) = CellValue::Integer(3);
    let mut sleep_time: u64 = 0;
    assert_eq!(
        evaluate_formula(&mut sheet, 1, 1, "MAX(A1:B1)", &mut sleep_time),
        CommandStatus::CmdOk
    );
    assert_eq!(*sheet.get_cell(1, 1), CellValue::Integer(5));
}

#[test]
fn test_resolve_cell_reference_named_range() {
    let mut sheet = create_test_spreadsheet(5, 5);
    sheet.named_ranges.insert(
        "test".to_string(),
        Range {
            start_row: 1,
            start_col: 1,
            end_row: 1,
            end_col: 1,
        },
    );
    assert_eq!(resolve_cell_reference(&sheet, "test"), Ok((1, 1)));
}

#[test]
fn test_evaluate_arithmetic_both_cells() {
    let mut sheet = create_test_spreadsheet(5, 5);
    *sheet.get_mut_cell(0, 0) = CellValue::Integer(5);
    *sheet.get_mut_cell(0, 1) = CellValue::Integer(3);
    assert_eq!(
        evaluate_arithmetic(&mut sheet, 1, 1, "A1+B1"),
        CommandStatus::CmdOk
    );
    assert_eq!(*sheet.get_cell(1, 1), CellValue::Integer(8));
}

#[test]
fn test_evaluate_formula_avg() {
    let mut sheet = create_test_spreadsheet(5, 5);
    *sheet.get_mut_cell(0, 0) = CellValue::Integer(2);
    *sheet.get_mut_cell(0, 1) = CellValue::Integer(4);
    let mut sleep_time: u64 = 0;
    assert_eq!(
        evaluate_formula(&mut sheet, 1, 1, "AVG(A1:B1)", &mut sleep_time),
        CommandStatus::CmdOk
    );
    assert_eq!(*sheet.get_cell(1, 1), CellValue::Integer(3));
}

#[test]
fn test_evaluate_formula_stdev() {
    let mut sheet = create_test_spreadsheet(5, 5);
    *sheet.get_mut_cell(0, 0) = CellValue::Integer(2);
    *sheet.get_mut_cell(0, 1) = CellValue::Integer(4);
    let mut sleep_time: u64 = 0;
    assert_eq!(
        evaluate_formula(&mut sheet, 1, 1, "STDEV(A1:B1)", &mut sleep_time),
        CommandStatus::CmdOk
    );
}

#[test]
fn test_set_cell_value_locked() {
    let mut sheet = create_test_spreadsheet(5, 5);
    sheet.lock_range(Range {
        start_row: 0,
        start_col: 0,
        end_row: 0,
        end_col: 0,
    });
    let mut sleep_time: u64 = 0;
    assert_eq!(
        set_cell_value(&mut sheet, 0, 0, "42", &mut sleep_time),
        CommandStatus::LockedCell
    );
}

#[test]
fn test_handle_command_highlight() {
    let mut sheet = create_test_spreadsheet(5, 5);
    let mut sleep_time: u64 = 0;
    assert_eq!(
        handle_command(&mut sheet, "HLP A1", &mut sleep_time),
        CommandStatus::CmdOk
    );
    assert_eq!(sheet.highlight_type, HighlightType::Parent);
    assert_eq!(
        handle_command(&mut sheet, "HLOFF", &mut sleep_time),
        CommandStatus::CmdOk
    );
    assert_eq!(sheet.highlight_type, HighlightType::NoHighlight);
}

#[test]
fn test_evaluate_arithmetic_invalid_operator_position() {
    let mut sheet = create_test_spreadsheet(5, 5);
    assert_eq!(
        evaluate_arithmetic(&mut sheet, 0, 0, "A1=+B1"),
        CommandStatus::Unrecognized
    );
}

#[test]
fn test_evaluate_arithmetic_incomplete_expression() {
    let mut sheet = create_test_spreadsheet(5, 5);
    assert_eq!(
        evaluate_arithmetic(&mut sheet, 0, 0, "A1/"),
        CommandStatus::Unrecognized
    );
}

#[test]
fn test_evaluate_arithmetic_multiple_operands() {
    let mut sheet = create_test_spreadsheet(5, 5);
    assert_eq!(
        evaluate_arithmetic(&mut sheet, 0, 0, "A1*B1*C1"),
        CommandStatus::Unrecognized
    );
}

#[test]
fn test_evaluate_arithmetic_division_by_zero() {
    let mut sheet = create_test_spreadsheet(5, 5);
    *sheet.get_mut_cell(0, 1) = CellValue::Integer(0);
    assert_eq!(
        evaluate_arithmetic(&mut sheet, 1, 1, "A1/B1"),
        CommandStatus::CmdOk
    );
    assert_eq!(*sheet.get_cell(1, 1), CellValue::Error);
}

#[test]
fn test_set_cell_value_circular_ref_both_cells() {
    let mut sheet = create_test_spreadsheet(5, 5);
    let mut sleep_time: u64 = 0;
    assert_eq!(
        set_cell_value(&mut sheet, 0, 0, "A1+B1", &mut sleep_time),
        CommandStatus::CircularRef
    );
    assert_eq!(*sheet.get_cell(0, 0), CellValue::Integer(0));
}

#[test]
fn test_evaluate_formula_avg_single_cell() {
    let mut sheet = create_test_spreadsheet(5, 5);
    *sheet.get_mut_cell(0, 0) = CellValue::Integer(10);
    let mut sleep_time: u64 = 0;
    assert_eq!(
        evaluate_formula(&mut sheet, 1, 1, "AVG(A1:A1)", &mut sleep_time),
        CommandStatus::CmdOk
    );
    assert_eq!(*sheet.get_cell(1, 1), CellValue::Integer(10));
}

#[test]
fn test_evaluate_formula_min_with_error() {
    let mut sheet = create_test_spreadsheet(5, 5);
    *sheet.get_mut_cell(0, 0) = CellValue::Integer(5);
    *sheet.get_mut_cell(0, 1) = CellValue::Error;
    let mut sleep_time: u64 = 0;
    assert_eq!(
        evaluate_formula(&mut sheet, 1, 1, "MIN(A1:B1)", &mut sleep_time),
        CommandStatus::CmdOk
    );
    assert_eq!(*sheet.get_cell(1, 1), CellValue::Error);
}

#[test]
fn test_evaluate_formula_max_negative_numbers() {
    let mut sheet = create_test_spreadsheet(5, 5);
    *sheet.get_mut_cell(0, 0) = CellValue::Integer(-5);
    *sheet.get_mut_cell(0, 1) = CellValue::Integer(-3);
    let mut sleep_time: u64 = 0;
    assert_eq!(
        evaluate_formula(&mut sheet, 1, 1, "MAX(A1:B1)", &mut sleep_time),
        CommandStatus::CmdOk
    );
    assert_eq!(*sheet.get_cell(1, 1), CellValue::Integer(-3));
}

#[test]
fn test_evaluate_formula_stdev_large_range() {
    let mut sheet = create_test_spreadsheet(5, 5);
    *sheet.get_mut_cell(0, 0) = CellValue::Integer(1);
    *sheet.get_mut_cell(0, 1) = CellValue::Integer(3);
    *sheet.get_mut_cell(1, 0) = CellValue::Integer(5);
    let mut sleep_time: u64 = 0;
    assert_eq!(
        evaluate_formula(&mut sheet, 2, 2, "STDEV(A1:B2)", &mut sleep_time),
        CommandStatus::CmdOk
    );
}

#[test]
fn test_evaluate_formula_with_named_range() {
    let mut sheet = create_test_spreadsheet(5, 5);
    sheet.named_ranges.insert(
        "data".to_string(),
        Range {
            start_row: 0,
            start_col: 0,
            end_row: 0,
            end_col: 0,
        },
    );
    *sheet.get_mut_cell(0, 0) = CellValue::Integer(15);
    let mut sleep_time: u64 = 0;
    assert_eq!(
        evaluate_formula(&mut sheet, 1, 1, "SUM(data)", &mut sleep_time),
        CommandStatus::CmdOk
    );
    assert_eq!(*sheet.get_cell(1, 1), CellValue::Integer(15));
}

#[test]
fn test_sleep_error() {
    let mut sheet = create_test_spreadsheet(5, 5);
    *sheet.get_mut_cell(0, 0) = CellValue::Error;
    let mut sleep_time: u64 = 0;
    assert_eq!(
        handle_sleep(&mut sheet, 1, 1, "A1", &mut sleep_time),
        CommandStatus::CmdOk
    );
}

#[test]
fn test_wrong_cell_reference() {
    let mut sheet = create_test_spreadsheet(5, 5);
    assert_eq!(evaluate_arithmetic(
        &mut sheet,
        0,
        0,
        "ZZZ999",),CommandStatus::Unrecognized);
}

#[test]
fn left_and_right_val(){
    let mut sheet = create_test_spreadsheet(5, 5);
    *sheet.get_mut_cell(0, 1) = CellValue::Error;
    let mut sleep_time: u64 = 0;
    assert_eq!(
        evaluate_formula(&mut sheet, 1, 1, "4+B1", &mut sleep_time),
        CommandStatus::CmdOk
    );
    assert_eq!(*sheet.get_cell(1, 1), CellValue::Error);
}

#[test]
fn left_error_right_cell(){
    let mut sheet = create_test_spreadsheet(5, 5);
    *sheet.get_mut_cell(0, 0) = CellValue::Error;
    *sheet.get_mut_cell(0, 1) = CellValue::Integer(1);
    let mut sleep_time: u64 = 0;
    assert_eq!(
        evaluate_formula(&mut sheet, 1, 1, "A1+B1", &mut sleep_time),
        CommandStatus::CmdOk
    );
    assert_eq!(*sheet.get_cell(1, 1), CellValue::Error);
}

#[test]
fn test_handle_command_history_empty() {
    let mut sheet = create_test_spreadsheet(5, 5);
    let mut sleep_time: u64 = 0;
    assert_eq!(
        handle_command(&mut sheet, "history A1", &mut sleep_time),
        CommandStatus::CmdOk
    );
    assert_eq!(*sheet.get_cell(0, 0), CellValue::Integer(0));
}
