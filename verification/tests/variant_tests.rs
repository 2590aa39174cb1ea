#![allow(unused_imports)]
use ferro_sheet::cell::{parse_cell_reference, parse_cell_reference_in_limits, Cell, CellValue};
use ferro_sheet::dependency_table::DependencyTable;
use ferro_sheet::dfs::detect_cycle;
use ferro_sheet::evaluator::evaluate_arithmetic;
use ferro_sheet::formula::parse_range;
use ferro_sheet::linked_list::Node;
use ferro_sheet::links::{add_child, add_linkedList_stack, add_linkedlist_stack, get_cell_from_key, get_cell_value, get_key, get_key_row_col, remove_child};
use ferro_sheet::relationships::CellRelationships;
use ferro_sheet::command::handle_command;
use ferro_sheet::spreadsheet::{CommandStatus, Spreadsheet};
use std::collections::HashSet;

fn create_test_spreadsheet(rows: i16, cols: i16) -> Spreadsheet {
    Spreadsheet::create(rows, cols).unwrap()
}

#[test]
fn test_cell_new() {
    let cell = Cell::new();
    assert_eq!(cell.value, CellValue::Integer(0));
    assert_eq!(cell.formula, -1);
    assert_eq!(cell.parent1, -1);
    assert_eq!(cell.parent2, -1);
    assert!(cell.children.is_none());
}

#[test]
fn test_parse_cell_reference() {
    let sheet = Spreadsheet::create(10, 10).unwrap();
    assert_eq!(parse_cell_reference_in_limits(&sheet, "A1"), Ok((0, 0)));
    assert_eq!(parse_cell_reference_in_limits(&sheet, "B2"), Ok((1, 1)));
    assert_eq!(parse_cell_reference_in_limits(&sheet, "AA10"), Ok((9, 26)));
    assert_eq!(parse_cell_reference_in_limits(&sheet, "1A"), Err(CommandStatus::Unrecognized));
    assert_eq!(parse_cell_reference_in_limits(&sheet, "A"), Err(CommandStatus::Unrecognized));
    assert_eq!(parse_cell_reference_in_limits(&sheet, "A1B"), Err(CommandStatus::Unrecognized));
    assert_eq!(parse_cell_reference_in_limits(&sheet, "AAAA1"), Err(CommandStatus::Unrecognized));
}

#[test]
fn parse_cell_reference_in_limits_stops_at_the_largest_sheet() {
    let sheet = Spreadsheet::create(10, 10).unwrap();
    assert_eq!(parse_cell_reference_in_limits(&sheet, "ZZZ999"), Ok((998, 18277)));
    assert_eq!(parse_cell_reference_in_limits(&sheet, "ZZZ1000"), Err(CommandStatus::Unrecognized));
    assert_eq!(parse_cell_reference_in_limits(&sheet, "A0"), Err(CommandStatus::Unrecognized));
}

#[test]
fn parse_cell_reference_keeps_to_the_sheet() {
    let sheet = Spreadsheet::create(10, 10).unwrap();
    assert_eq!(parse_cell_reference(&sheet, "J10"), Ok((9, 9)));
    assert_eq!(parse_cell_reference(&sheet, "AA10"), Err(CommandStatus::Unrecognized));
    assert_eq!(parse_cell_reference(&sheet, "A11"), Err(CommandStatus::Unrecognized));
}

#[test]
fn graph_test_add_remove_child() {
    let mut cell = Cell::new();
    add_child(&mut cell, 0, 1, 5);
    assert!(cell.children.is_some());
    remove_child(&mut cell, get_key(0, 1, 5));
    assert!(cell.children.is_none());
}

#[test]
fn test_parse_range() {
    let sheet = Spreadsheet::create(5, 5).unwrap();
    assert!(parse_range(&sheet, "A1:B2").is_ok());
    assert!(parse_range(&sheet, "A").is_err());
}

#[test]
fn test_evaluate_arithmetic_div_by_zero() {
    let mut sheet = create_test_spreadsheet(5, 5);
    assert_eq!(
        evaluate_arithmetic(&mut sheet, 0, 0, "5/0"),
        CommandStatus::CmdOk
    );
    assert_eq!(*sheet.get_cell(0, 0), CellValue::Error);
}

#[test]
fn test_last_edited() {
    let mut sheet = Spreadsheet::create(5, 5).unwrap();
    assert_eq!(sheet.last_edited, None);
    sheet.set_last_edited(2, 3);
    assert_eq!(sheet.last_edited, Some((2, 3)));
    sheet.scroll_to_last_edited();
    assert_eq!(sheet.viewport_row, 2);
    assert_eq!(sheet.viewport_col, 3);
}

#[test]
fn linked_list_operations() {
    let mut list = Node::from_vec(&[1, 2, 3]);
    assert_eq!(list.as_ref().unwrap().to_vec(), vec![1, 2, 3]);
    Node::append(&mut list, 4);
    assert_eq!(Node::len(&list), 4);
    assert!(Node::contains(&list, 3));
    assert!(!Node::contains(&list, 9));
    assert_eq!(Node::find(&list, 3).unwrap().to_vec(), vec![3, 4]);
    assert!(Node::find(&list, 9).is_none());
    assert!(Node::remove(&mut list, 2));
    assert!(!Node::remove(&mut list, 2));
    assert_eq!(list.as_ref().unwrap().to_vec(), vec![1, 3, 4]);
    let list = Node::prepend(list, 0);
    assert_eq!(list.as_ref().unwrap().to_vec(), vec![0, 1, 3, 4]);
    let mut stack = vec![9];
    add_linkedlist_stack(&mut stack, &list);
    assert_eq!(stack, vec![9, 0, 1, 3, 4]);
    assert!(Node::from_vec(&[]).is_none());
}

#[test]
fn cell_keys() {
    assert_eq!(get_key(2, 3, 5), 13);
    let mut row: i16 = 0;
    let mut col: i16 = 0;
    get_key_row_col(13, 5, &mut row, &mut col);
    assert_eq!((row, col), (2, 3));
    get_key_row_col(-7, 5, &mut row, &mut col);
    assert_eq!((row, col), (-1, -2));
    get_key_row_col(7, -5, &mut row, &mut col);
    assert_eq!((row, col), (-1, 2));
    let mut sheet = create_test_spreadsheet(3, 3);
    *get_cell_from_key(&mut sheet, 4) = CellValue::Integer(8);
    assert_eq!(get_cell_value(&sheet, 4), CellValue::Integer(8));
    assert_eq!(*sheet.get_cell(1, 1), CellValue::Integer(8));
}

#[test]
fn relationships_record_and_forget() {
    let mut r = CellRelationships::new();
    assert_eq!(r.get_formula(7), -1);
    r.set_formula(7, 10);
    assert_eq!(r.get_formula(7), 10);
    r.add_parent(7, 1);
    r.add_parent(7, 2);
    r.add_child(1, 7);
    r.add_child(2, 7);
    r.add_child(2, 8);
    assert_eq!(r.get_parents(7), vec![1, 2]);
    r.remove_all_parents(7);
    assert!(r.get_parents(7).is_empty());
    assert!(r.get_children(1).is_empty());
    let expected: HashSet<i32> = [8].into_iter().collect();
    assert_eq!(r.get_children(2), expected);
    assert!(!r.parents.contains_key(&7));
    assert!(r.children.contains_key(&1));
    assert!(r.children.contains_key(&2));
}

#[test]
fn dependency_table_reuses_freed_slots() {
    let mut t = DependencyTable::new();
    let a = t.add_single_dep(None, (0, 1));
    assert_eq!(a, 1);
    assert_eq!(t.add_single_dep(Some(a), (0, 1)), 1);
    assert_eq!(t.get_deps(a), &vec![(0, 1)]);
    assert_eq!(t.add_single_dep(Some(a), (2, 2)), 1);
    assert_eq!(t.get_deps(a), &vec![(0, 1), (2, 2)]);
    let b = t.add_deps(vec![(5, 5)]);
    assert_eq!(b, 2);
    assert_eq!(t.remove_dep(a, (0, 1)), Some(1));
    assert_eq!(t.get_deps(a), &vec![(2, 2)]);
    assert_eq!(t.remove_dep(a, (9, 9)), Some(1));
    assert_eq!(t.remove_dep(a, (2, 2)), None);
    assert_eq!(t.add_deps(vec![(7, 7)]), 1);
    assert_eq!(t.get_deps(1), &vec![(7, 7)]);
}

#[test]
fn detect_cycle_follows_dependencies() {
    let mut sheet = create_test_spreadsheet(5, 5);
    let mut sleep: u64 = 0;
    handle_command(&mut sheet, "B1=A1+1", &mut sleep);
    handle_command(&mut sheet, "C1=SUM(B1:B2)", &mut sleep);
    let a1 = sheet.get_key(0, 0);
    let c1 = sheet.get_key(0, 2);
    // A1 = C1 + 1 would read C1, which a change of A1 reaches.
    assert!(detect_cycle(&sheet, c1, 1, 12, a1));
    // A1 = D1 + 1 would not.
    assert!(!detect_cycle(&sheet, sheet.get_key(0, 3), 1, 12, a1));
    // A1 = SUM(C1:D1) reads C1.
    assert!(detect_cycle(&sheet, c1, sheet.get_key(0, 3), 5, a1));
    // A1 reading itself.
    assert!(detect_cycle(&sheet, a1, 1, 12, a1));
}

#[test]
fn parents_and_children_sets() {
    let mut sheet = create_test_spreadsheet(5, 5);
    let mut sleep: u64 = 0;
    handle_command(&mut sheet, "C3=SUM(A1:B2)", &mut sleep);
    handle_command(&mut sheet, "D1=A1+B1", &mut sleep);
    let parents = sheet.get_parents(sheet.get_key(2, 2));
    let expected: HashSet<i32> = [0, 1, 5, 6].into_iter().collect();
    assert_eq!(parents, expected);
    let children = sheet.get_children(sheet.get_key(0, 0));
    let expected: HashSet<i32> = [sheet.get_key(2, 2), sheet.get_key(0, 3)].into_iter().collect();
    assert_eq!(children, expected);
    assert!(sheet.get_parents(sheet.get_key(4, 4)).is_empty());
}

#[test]
fn stack_from_a_node_starts_with_it() {
    let list = Node::from_vec(&vec![7, 8, 9]);
    let mut stack = vec![1];
    add_linkedList_stack(&mut stack, list.as_ref().unwrap());
    assert_eq!(stack, vec![1, 7, 8, 9]);
}

#[test]
fn relationships_find_a_reachable_ring() {
    let mut r = CellRelationships::new();
    r.add_child(1, 2);
    r.add_child(2, 3);
    assert!(!r.detect_cycle(1));
    r.add_child(3, 2);
    assert!(r.detect_cycle(1));
    assert!(r.detect_cycle(3));
    // 4 reaches nothing that depends on itself.
    r.add_child(4, 5);
    assert!(!r.detect_cycle(4));
    r.add_child(6, 6);
    assert!(r.detect_cycle(6));
    assert!(!r.detect_cycle(5));
}
