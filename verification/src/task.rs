//! The task record and its mathematical view.

use vstd::prelude::*;

verus! {

/// A task as the store keeps it. The status is free text: by convention one
/// of `Todo`, `InProgress`, `Done` and `Backlog`, but the store accepts any.
#[derive(Debug, PartialEq, Eq)]
pub struct Task {
    pub title: String,
    pub description: String,
    pub status: String,
}

/// What a [`Task`] holds, as sequences of characters.
pub struct TaskView {
    pub title: Seq<char>,
    pub description: Seq<char>,
    pub status: Seq<char>,
}

impl TaskView {
    /// The same record, but for its status.
    pub open spec fn with_status(self, status: Seq<char>) -> TaskView {
        TaskView { status, ..self }
    }

    /// The same record, but for its description.
    pub open spec fn with_description(self, description: Seq<char>) -> TaskView {
        TaskView { description, ..self }
    }
}

impl View for Task {
    type V = TaskView;

    open spec fn view(&self) -> TaskView {
        TaskView { title: self.title@, description: self.description@, status: self.status@ }
    }
}

impl DeepView for Task {
    type V = TaskView;

    open spec fn deep_view(&self) -> TaskView {
        self@
    }
}

impl Clone for Task {
    fn clone(&self) -> (copy: Task)
        ensures
            copy == *self,
    {
        Task {
            title: self.title.clone(),
            description: self.description.clone(),
            status: self.status.clone(),
        }
    }
}

impl Default for Task {
    fn default() -> (task: Task)
        ensures
            task@ == (TaskView {
                title: Seq::empty(),
                description: Seq::empty(),
                status: Seq::empty(),
            }),
    {
        Task { title: String::new(), description: String::new(), status: String::new() }
    }
}

} // verus!
