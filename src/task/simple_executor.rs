//! A first-in, first-out queue of tasks: a task that is not finished when
//! polled goes back to the end of the queue.
use vstd::prelude::*;
use std::collections::VecDeque;
use crate::task::Task;

verus! {

/// The queue of tasks waiting to be polled.
pub struct SimpleExecutor {
    task_queue: VecDeque<Task>,
}

impl SimpleExecutor {
    /// The tasks in the order they will be polled.
    pub closed spec fn view(&self) -> Seq<Task> {
        self.task_queue@
    }

    pub fn new() -> (r: SimpleExecutor)
        ensures
            r@ == Seq::<Task>::empty(),
    {
        SimpleExecutor { task_queue: VecDeque::new() }
    }

    /// Puts `task` at the end of the queue.
    pub fn spawn(&mut self, task: Task)
        ensures
            final(self)@ == old(self)@.push(task),
    {
        self.task_queue.push_back(task)
    }

    /// Takes the task at the front of the queue, to be polled; `None` once
    /// the queue is empty and the run is over.
    pub fn next_task(&mut self) -> (r: Option<Task>)
        ensures
            old(self)@.len() == 0 ==> r is None && final(self)@ == old(self)@,
            old(self)@.len() > 0 ==> r == Some(old(self)@[0]) && final(self)@ == old(self)@.drop_first(),
    {
        self.task_queue.pop_front()
    }

    /// Whether no task is waiting.
    pub fn is_empty(&self) -> (r: bool)
        ensures
            r == (self@.len() == 0),
    {
        self.task_queue.len() == 0
    }
}

} // verus!
