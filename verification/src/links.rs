//! Cell keys, and children kept as a linked list inside a [`Cell`].
use vstd::prelude::*;
use crate::cell::{Cell, CellValue};
use crate::linked_list::{Node, keys_of, without_first};
use crate::spreadsheet::{Spreadsheet, tdiv, tmod};

verus! {

/// The key of the cell (row, col) in a sheet with `cols` columns.
pub fn get_key(row: i16, col: i16, cols: i16) -> (k: i32)
    ensures
        k == row * cols + col,
{
    assert(-32768 * 32767 <= row * cols <= 32768 * 32768) by (nonlinear_arith)
        requires
            -32768 <= row <= 32767,
            -32768 <= cols <= 32767,
    ;
    row as i32 * cols as i32 + col as i32
}

/// Sets `row` and `col` to the quotient and remainder of `key` by `cols`, each cut to 16
/// bits as `as i16` does.
pub fn get_key_row_col(key: i32, cols: i16, row: &mut i16, col: &mut i16)
    requires
        cols != 0,
        !(key == i32::MIN && cols == -1),
    ensures
        *final(row) == tdiv(key as int, cols as int) as i16,
        *final(col) == tmod(key as int, cols as int) as i16,
{
    let c = cols as i32;
    let q = if c > 0 {
        key / c
    } else {
        let d = key / (-c);
        proof {
            assert(d == tdiv(key as int, -c as int));
            crate::spreadsheet::lemma_tdiv_bounds(key as int, -c as int);
        }
        -d
    };
    proof {
        assert(q == tdiv(key as int, c as int));
    }
    proof {
        let ac: int = if c < 0 {
            -(c as int)
        } else {
            c as int
        };
        crate::spreadsheet::lemma_tdiv_bounds(key as int, ac);
        let t = tdiv(key as int, ac);
        if c < 0 {
            assert(q == -t);
            assert(c * q == ac * t) by (nonlinear_arith)
                requires
                    q == -t,
                    ac == -c,
            ;
        }
        assert(-2147483648 <= key - c * q <= 2147483647) by (nonlinear_arith)
            requires
                key >= 0 ==> 0 <= c * q <= key,
                key < 0 ==> key <= c * q <= 0,
        ;
    }
    let m = key - c * q;
    *row = q as i16;
    *col = m as i16;
}

/// Records the cell (row, col) as the first child of `parent`.
pub fn add_child(parent: &mut Cell, row: i16, col: i16, cols: i16)
    ensures
        keys_of(final(parent).children) == seq![(row * cols + col) as i32] + keys_of(old(parent).children),
        final(parent).parent1 == old(parent).parent1,
        final(parent).parent2 == old(parent).parent2,
        final(parent).value == old(parent).value,
        final(parent).formula == old(parent).formula,
{
    let key = get_key(row, col, cols);
    let list = parent.children.take();
    parent.children = Node::prepend(list, key);
}

/// Forgets the first child `key` of `parent`.
pub fn remove_child(parent: &mut Cell, key: i32)
    ensures
        keys_of(final(parent).children) == without_first(keys_of(old(parent).children), key),
        final(parent).parent1 == old(parent).parent1,
        final(parent).parent2 == old(parent).parent2,
        final(parent).value == old(parent).value,
        final(parent).formula == old(parent).formula,
{
    Node::remove(&mut parent.children, key);
}

/// Pushes the keys of the list onto `stack`, head first.
pub fn add_linkedlist_stack(stack: &mut Vec<i32>, head: &Option<Box<Node>>)
    ensures
        final(stack)@ == old(stack)@ + keys_of(*head),
    decreases *head,
{
    match head {
        None => {
            proof {
                assert(old(stack)@ + keys_of(*head) =~= old(stack)@);
            }
        },
        Some(node) => {
            stack.push(node.key);
            add_linkedlist_stack(stack, &node.next);
            proof {
                assert(final(stack)@ =~= old(stack)@ + keys_of(*head));
            }
        },
    }
}

/// Pushes the keys of the list that starts with the node `head` onto `stack`, `head` first.
#[allow(non_snake_case)]
pub fn add_linkedList_stack(stack: &mut Vec<i32>, head: &Node)
    ensures
        final(stack)@ == old(stack)@ + seq![head.key] + keys_of(head.next),
{
    stack.push(head.key);
    add_linkedlist_stack(stack, &head.next);
}

/// The value of the cell whose key is `key`.
pub fn get_cell_value(sheet: &Spreadsheet, key: i32) -> (v: CellValue)
    requires
        sheet.dims_ok(),
        sheet.grid@.len() == sheet.rows * sheet.cols,
        0 <= key < sheet.grid@.len(),
    ensures
        v == sheet.grid@[key as int],
{
    let (row, col) = sheet.get_row_col(key);
    proof {
        lemma_key_cell(sheet, key);
    }
    *sheet.get_cell(row, col)
}

/// The cell whose key is `key`, to be changed in place.
pub fn get_cell_from_key(sheet: &mut Spreadsheet, key: i32) -> (v: &mut CellValue)
    requires
        old(sheet).dims_ok(),
        old(sheet).grid@.len() == old(sheet).rows * old(sheet).cols,
        0 <= key < old(sheet).grid@.len(),
    ensures
        *v == old(sheet).grid@[key as int],
        final(sheet).grid@ == old(sheet).grid@.update(key as int, *final(v)),
        *final(sheet) == (Spreadsheet { grid: final(sheet).grid, ..*old(sheet) }),
{
    let (row, col) = sheet.get_row_col(key);
    proof {
        lemma_key_cell(sheet, key);
    }
    sheet.get_mut_cell(row, col)
}

/// A key of the grid is the key of its own row and column.
proof fn lemma_key_cell(sheet: &Spreadsheet, key: i32)
    requires
        sheet.dims_ok(),
        sheet.grid@.len() == sheet.rows * sheet.cols,
        0 <= key < sheet.grid@.len(),
    ensures
        sheet.in_grid(sheet.row_of(key as int) as int, sheet.col_of(key as int) as int),
        sheet.key_of(sheet.row_of(key as int) as int, sheet.col_of(key as int) as int) == key,
{
    crate::spreadsheet::lemma_key_split(key as int, sheet.rows as int, sheet.cols as int);
}

} // verus!
