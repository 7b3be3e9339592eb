//! The records that are synchronised: tasks, and the items that wrap them.

use vstd::prelude::*;
use crate::timestamp::Timestamp;

verus! {

/// The identity of an item: assigned once, when the item is created, and never
/// changed. Copying an item from one calendar to another keeps it.
#[derive(Clone, Copy, Debug, PartialEq, Eq, Structural, PartialOrd, Ord, Hash)]
pub struct ItemId {
    pub value: u64,
}

impl ItemId {
    /// The identity with the given number.
    pub fn new(value: u64) -> (id: ItemId)
        ensures
            id.value == value,
    {
        ItemId { value }
    }

    /// The number of the identity.
    pub fn value(&self) -> (v: u64)
        ensures
            v == self.value,
    {
        self.value
    }
}

/// What a task is, as a mathematical value.
pub struct TaskView {
    pub id: ItemId,
    pub name: Seq<char>,
    pub completed: bool,
    pub last_modified: Timestamp,
}

/// A to-do entry.
#[derive(Debug)]
pub struct Task {
    id: ItemId,
    name: String,
    completed: bool,
    last_modified: Timestamp,
}

impl View for Task {
    type V = TaskView;

    closed spec fn view(&self) -> TaskView {
        TaskView {
            id: self.id,
            name: self.name@,
            completed: self.completed,
            last_modified: self.last_modified,
        }
    }
}

impl Clone for Task {
    fn clone(&self) -> (r: Task)
        ensures
            r@ == self@,
    {
        Task {
            id: self.id,
            name: self.name.clone(),
            completed: self.completed,
            last_modified: self.last_modified,
        }
    }
}

impl Task {
    /// A new, uncompleted task.
    pub fn new(id: ItemId, name: String, last_modified: Timestamp) -> (t: Task)
        ensures
            t@ == (TaskView { id, name: name@, completed: false, last_modified }),
    {
        Task { id, name, completed: false, last_modified }
    }

    /// The identity of the task.
    pub fn id(&self) -> (id: &ItemId)
        ensures
            *id == self@.id,
    {
        &self.id
    }

    /// The display name.
    pub fn name(&self) -> (name: &str)
        ensures
            name@ == self@.name,
    {
        self.name.as_str()
    }

    /// Whether the task is done.
    pub fn completed(&self) -> (c: bool)
        ensures
            c == self@.completed,
    {
        self.completed
    }

    /// When the task was last changed.
    pub fn last_modified(&self) -> (t: Timestamp)
        ensures
            t == self@.last_modified,
    {
        self.last_modified
    }

    /// Renames the task at time `at`. The last-modified time moves to `at`,
    /// unless it is already later: it never goes back.
    pub fn set_name(&mut self, new_name: String, at: Timestamp)
        ensures
            final(self)@ == (TaskView {
                name: new_name@,
                last_modified: at.later_of(old(self)@.last_modified),
                ..old(self)@
            }),
    {
        self.name = new_name;
        self.last_modified = at.later_of(self.last_modified);
    }

    /// Marks the task as completed or not at time `at`. The last-modified time
    /// moves to `at`, unless it is already later.
    pub fn set_completed(&mut self, completed: bool, at: Timestamp)
        ensures
            final(self)@ == (TaskView {
                completed,
                last_modified: at.later_of(old(self)@.last_modified),
                ..old(self)@
            }),
    {
        self.completed = completed;
        self.last_modified = at.later_of(self.last_modified);
    }

    /// Whether two tasks are the same value: same identity, name, completion
    /// and last-modified time.
    pub fn same_as(&self, other: &Task) -> (r: bool)
        ensures
            r == (self@ == other@),
    {
        self.id == other.id && self.name == other.name && self.completed == other.completed
            && self.last_modified == other.last_modified
    }
}

/// An entry of a calendar. Tasks are the only kind there is.
#[derive(Debug)]
pub enum Item {
    Task(Task),
}

impl View for Item {
    type V = TaskView;

    open spec fn view(&self) -> TaskView {
        match self {
            Item::Task(t) => t@,
        }
    }
}

impl Clone for Item {
    fn clone(&self) -> (r: Item)
        ensures
            r@ == self@,
    {
        match self {
            Item::Task(t) => Item::Task(t.clone()),
        }
    }
}

impl Item {
    /// The identity of the item.
    pub fn id(&self) -> (id: &ItemId)
        ensures
            *id == self@.id,
    {
        match self {
            Item::Task(t) => t.id(),
        }
    }

    /// The display name.
    pub fn name(&self) -> (name: &str)
        ensures
            name@ == self@.name,
    {
        match self {
            Item::Task(t) => t.name(),
        }
    }

    /// When the item was last changed.
    pub fn last_modified(&self) -> (t: Timestamp)
        ensures
            t == self@.last_modified,
    {
        match self {
            Item::Task(t) => t.last_modified(),
        }
    }

    /// The task inside the item.
    pub fn unwrap_task(&self) -> (t: &Task)
        ensures
            t@ == self@,
    {
        match self {
            Item::Task(t) => t,
        }
    }

    /// The task inside the item, for changing it in place.
    pub fn unwrap_task_mut(&mut self) -> (t: &mut Task)
        ensures
            t@ == old(self)@,
            final(self)@ == final(t)@,
    {
        match self {
            Item::Task(t) => t,
        }
    }

    /// Whether two items are the same value.
    pub fn same_as(&self, other: &Item) -> (r: bool)
        ensures
            r == (self@ == other@),
    {
        match self {
            Item::Task(t) => match other {
                Item::Task(u) => t.same_as(u),
            },
        }
    }
}

/// The values of a sequence of items.
pub open spec fn views_of(items: Seq<Item>) -> Seq<TaskView> {
    items.map_values(|it: Item| it@)
}

/// The values of a sequence of borrowed items.
pub open spec fn views_of_refs(items: Seq<&Item>) -> Seq<TaskView> {
    items.map_values(|it: &Item| it@)
}

/// The values of a sequence of borrowed tasks.
pub open spec fn task_views(tasks: Seq<&Task>) -> Seq<TaskView> {
    tasks.map_values(|t: &Task| t@)
}

/// The identities of a sequence of items, in their order.
pub open spec fn ids_of(items: Seq<TaskView>) -> Seq<ItemId> {
    items.map_values(|v: TaskView| v.id)
}

} // verus!
