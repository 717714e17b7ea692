//! Cursor movement of the TODO list's selector.  Drawing and key reading
//! are terminal I/O and stay outside the crate; the selection arithmetic
//! lives here.

use crate::todo_list::TodoList;
use vstd::prelude::*;

verus! {

/// Failure of the selector.
#[derive(Debug, PartialEq, Eq, Structural, Clone, Copy)]
pub enum SelectorError {
    /// There is nothing to select in an empty list.
    EmptyTodoList,
}

/// Moves the selection one row up, staying at the first row.
pub fn select_up(select_cursor: &mut usize)
    ensures
        *final(select_cursor) == if *old(select_cursor) == 0 {
            0usize
        } else {
            (*old(select_cursor) - 1) as usize
        },
{
    if *select_cursor == 0 {
        return;
    }
    *select_cursor = *select_cursor - 1;
}

/// Moves the selection one row down, staying at the last row.
pub fn select_down(select_cursor: &mut usize, todo_list: &TodoList)
    requires
        todo_list@.len() > 0,
        *old(select_cursor) < todo_list@.len(),
    ensures
        *final(select_cursor) == if *old(select_cursor) == todo_list@.len() - 1 {
            *old(select_cursor)
        } else {
            (*old(select_cursor) + 1) as usize
        },
{
    if *select_cursor == todo_list.len() - 1 {
        return;
    }
    *select_cursor = *select_cursor + 1;
}

/// How many terminal lines the selector drawing occupies: two per entry
/// plus the three frame lines.
pub fn drawing_line_height(todo_list: &TodoList) -> (r: usize)
    requires
        todo_list@.len() * 2 + 3 <= usize::MAX,
    ensures
        r == todo_list@.len() * 2 + 3,
{
    todo_list.len() * 2 + 3
}

} // verus!
