//! A single task: a node of the hierarchy, identified by a positive id,
//! optionally pointing at a parent task.

use vstd::prelude::*;

verus! {

/// One task of the list. `parent_id == None` means a root-level task;
/// `parent_id == Some(p)` means the task sits under the task whose id is `p`.
pub struct TodoItem {
    pub id: u32,
    pub text: String,
    pub completed: bool,
    pub parent_id: Option<u32>,
    pub created_at: String,
}

/// The mathematical value of a task: the same fields, with the strings
/// abstracted to character sequences.
#[verifier::ext_equal]
pub ghost struct ItemView {
    pub id: u32,
    pub text: Seq<char>,
    pub completed: bool,
    pub parent_id: Option<u32>,
    pub created_at: Seq<char>,
}

impl View for TodoItem {
    type V = ItemView;

    open spec fn view(&self) -> ItemView {
        ItemView {
            id: self.id,
            text: self.text@,
            completed: self.completed,
            parent_id: self.parent_id,
            created_at: self.created_at@,
        }
    }
}

impl TodoItem {
    /// An exact copy of the task, field by field.
    pub fn duplicate(&self) -> (r: TodoItem)
        ensures
            r@ == self@,
    {
        let r = TodoItem {
            id: self.id,
            text: self.text.clone(),
            completed: self.completed,
            parent_id: self.parent_id,
            created_at: self.created_at.clone(),
        };
        proof {
            assert(r@ =~= self@);
        }
        r
    }
}

} // verus!
