//! The task forms of the earlier, Rocket-served task API and the decisions
//! its handlers make between reading the form and rendering a task item.
use vstd::prelude::*;

verus! {

/// The form that adds or edits a task.
#[derive(Debug, Clone)]
pub struct TaskInput {
    pub title: String,
    pub description: Option<String>,
    pub due_date: Option<String>,
}

/// An HTML fragment sent with status 202.
#[derive(Debug)]
pub struct Html(pub String);

/// The checkbox form that marks a task done or not done.
#[derive(Debug, Clone)]
pub struct CheckValidInput {
    pub complete: bool,
    pub value: Option<String>,
}

impl CheckValidInput {
    /// A checked box sends a value; the task is then marked done.
    pub fn marks_done(&self) -> (done: bool)
        ensures
            done == (self.value is Some),
    {
        self.value.is_some()
    }
}

/// The template that renders a task item: the checked one for a done task.
pub fn task_item_template(done: bool) -> (name: &'static str)
    ensures
        name@ == (if done {
            "task/item_checked"@
        } else {
            "task/item_unchecked"@
        }),
{
    if done {
        "task/item_checked"
    } else {
        "task/item_unchecked"
    }
}

/// The description stored for a new task: the one given, or the empty text.
pub fn task_description(description: &Option<String>) -> (text: &str)
    ensures
        text@ == (match description {
            Some(d) => d@,
            None => ""@,
        }),
{
    match description {
        Some(d) => d.as_str(),
        None => "",
    }
}

} // verus!
