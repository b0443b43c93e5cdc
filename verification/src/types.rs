//! The record types of the engine: todo rows, settings rows, the
//! partial-update request, and the error taxonomy.

use vstd::prelude::*;

verus! {

/// One row of the todo table.
///
/// `parent_id` of `None` means the todo is root-level; otherwise it names
/// the `id` of another row. Siblings sharing a parent are ordered by
/// `(sort_order, id)` ascending.
pub struct Todo {
    pub id: i64,
    pub parent_id: Option<i64>,
    pub title: String,
    pub completed: bool,
    pub sort_order: i64,
    pub description: String,
    pub priority: i64,
    pub due_date: Option<String>,
}

impl Clone for Todo {
    fn clone(&self) -> (res: Self)
        ensures
            res == *self,
    {
        Todo {
            id: self.id,
            parent_id: self.parent_id,
            title: self.title.clone(),
            completed: self.completed,
            sort_order: self.sort_order,
            description: self.description.clone(),
            priority: self.priority,
            due_date: match &self.due_date {
                Some(d) => Some(d.clone()),
                None => None,
            },
        }
    }
}

/// One row of the settings table: a key/value pair of text.
pub struct Setting {
    pub key: String,
    pub value: String,
}

impl Clone for Setting {
    fn clone(&self) -> (res: Self)
        ensures
            res == *self,
    {
        Setting { key: self.key.clone(), value: self.value.clone() }
    }
}

/// A partial update of one todo row: each field is written only when its
/// slot is `Some`. For `parent_id` and `due_date` the inner option is the
/// new stored value (`Some(None)` clears the field).
pub struct TodoUpdate {
    pub title: Option<String>,
    pub completed: Option<bool>,
    pub sort_order: Option<i64>,
    pub parent_id: Option<Option<i64>>,
    pub description: Option<String>,
    pub priority: Option<i64>,
    pub due_date: Option<Option<String>>,
}

impl TodoUpdate {
    /// A request that touches no field: applying it is a no-op.
    pub fn empty() -> (u: TodoUpdate)
        ensures
            u.title is None,
            u.completed is None,
            u.sort_order is None,
            u.parent_id is None,
            u.description is None,
            u.priority is None,
            u.due_date is None,
    {
        TodoUpdate {
            title: None,
            completed: None,
            sort_order: None,
            parent_id: None,
            description: None,
            priority: None,
            due_date: None,
        }
    }
}

/// The errors an operation can report.
#[derive(Clone, Copy, PartialEq, Eq, Structural, Debug)]
pub enum TodoError {
    /// The target id does not exist.
    NotFound,
    /// A supplied parent id is dangling or would create a cycle.
    InvalidReference,
    /// A supplied text value is not allowed (an empty title or key).
    InvalidValue,
    /// The underlying store failed; surfaced, never swallowed.
    StorageFailure,
}

} // verus!
