//! The task store: an ordered sequence of tasks addressed by a stable
//! positional identifier.

use vstd::prelude::*;
use crate::task::{task_view_wf, Task, TaskView};

verus! {

/// The ordered collection of all tasks. A task's identifier is its position:
/// an identifier is live exactly while it is below the store's length, and
/// tasks leave the store only in bulk, through `clear`.
#[derive(Debug)]
pub struct Tasks {
    pub tasks: Vec<Task>,
}

impl View for Tasks {
    type V = Seq<TaskView>;

    open spec fn view(&self) -> Seq<TaskView> {
        self.tasks.deep_view()
    }
}

impl Tasks {
    /// Every task of a well-formed store is well-formed.
    pub open spec fn wf(self) -> bool {
        forall|i: int| 0 <= i < self@.len() ==> task_view_wf(#[trigger] self@[i])
    }

    /// An empty store.
    pub fn new() -> (r: Tasks)
        ensures
            r@ =~= Seq::<TaskView>::empty(),
            r.wf(),
    {
        Tasks { tasks: Vec::new() }
    }

    /// Whether a task lives at the identifier `id`.
    pub fn has_id(&self, id: usize) -> (r: bool)
        ensures
            r == (id < self@.len()),
    {
        id < self.tasks.len()
    }

    /// Appends a task; its identifier is the store's length before the
    /// append.
    pub fn add_task(&mut self, task: Task)
        ensures
            final(self)@ == old(self)@.push(task@),
    {
        self.tasks.push(task);
        assert(self@ =~= old(self)@.push(self.tasks@.last()@));
    }

    /// The number of tasks, which is also the next identifier.
    pub fn num_tasks(&self) -> (r: usize)
        ensures
            r == self@.len(),
    {
        self.tasks.len()
    }

    /// The task at a live identifier.
    pub fn get_task(&self, id: usize) -> (t: &Task)
        requires
            id < self@.len(),
        ensures
            t@ == self@[id as int],
    {
        assert(self.tasks.deep_view()[id as int] == self.tasks@[id as int]@);
        &self.tasks[id]
    }

    /// A mutable borrow of the task at a live identifier; the store after
    /// the borrow differs from the one before in that task alone.
    pub fn task_mut(&mut self, id: usize) -> (t: &mut Task)
        requires
            id < old(self)@.len(),
        ensures
            *t == old(self).tasks@[id as int],
            final(self).tasks@ == old(self).tasks@.update(id as int, *final(t)),
            final(self)@ =~= old(self)@.update(id as int, final(t)@),
    {
        &mut self.tasks[id]
    }

    /// Empties the store; every identifier stops being live.
    pub fn clear(&mut self)
        ensures
            final(self)@ =~= Seq::<TaskView>::empty(),
    {
        self.tasks.clear();
    }
}

/// Replacing one well-formed task of a well-formed store keeps every task
/// well-formed.
pub proof fn lemma_store_wf_update(store: Seq<TaskView>, id: int, t: TaskView)
    requires
        forall|i: int| 0 <= i < store.len() ==> task_view_wf(#[trigger] store[i]),
        task_view_wf(t),
        0 <= id < store.len(),
    ensures
        forall|i: int|
            0 <= i < store.update(id, t).len() ==> task_view_wf(#[trigger] store.update(id, t)[i]),
{
    assert forall|i: int|
        0 <= i < store.update(id, t).len() implies task_view_wf(
        #[trigger] store.update(id, t)[i],
    ) by {
        if i != id {
            assert(store.update(id, t)[i] == store[i]);
        }
    }
}

} // verus!
