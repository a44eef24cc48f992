//! The task record and its mathematical view.

use vstd::prelude::*;

verus! {

/// One to-do item: a numeric identifier, free-form text, and a done flag.
pub struct Task {
    pub id: u32,
    pub description: String,
    pub completed: bool,
}

/// Mathematical view of a task: the identifier as an unbounded natural,
/// the description as a character sequence.
pub ghost struct TaskView {
    pub id: nat,
    pub description: Seq<char>,
    pub completed: bool,
}

impl View for Task {
    type V = TaskView;

    open spec fn view(&self) -> TaskView {
        TaskView { id: self.id as nat, description: self.description@, completed: self.completed }
    }
}

impl Task {
    /// Builds a task from its three fields.
    pub fn new(id: u32, description: String, completed: bool) -> (t: Task)
        ensures
            t@ == (TaskView { id: id as nat, description: description@, completed }),
    {
        Task { id, description, completed }
    }
}

/// A task view is representable: its identifier fits the on-disk integer type.
pub open spec fn task_wf(t: TaskView) -> bool {
    t.id <= u32::MAX
}

pub open spec fn tasks_wf(ts: Seq<TaskView>) -> bool {
    forall|i: int| 0 <= i < ts.len() ==> task_wf(#[trigger] ts[i])
}

} // verus!
