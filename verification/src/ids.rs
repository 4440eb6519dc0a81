use vstd::prelude::*;

verus! {

/// The identifier of a task.
///
/// Task identifiers are short: a roadline holds at most 256 tasks, and the
/// identifier doubles as a position in dense per-task tables.
#[derive(Debug, Clone, Copy, PartialEq, Eq, Structural, Hash, PartialOrd, Ord)]
pub struct TaskId(pub u8);

impl TaskId {
    /// Creates a task identifier from its numeric value.
    pub fn new(id: u8) -> (r: TaskId)
        ensures
            r.0 == id,
    {
        TaskId(id)
    }

    /// The numeric value of the identifier.
    pub fn value(&self) -> (r: u8)
        ensures
            r == self.0,
    {
        self.0
    }
}

/// The identifier of a dependency: the edge from one task to another.
#[derive(Debug, Clone, Copy, PartialEq, Eq, Structural, Hash, PartialOrd, Ord)]
pub struct DependencyId {
    pub from: TaskId,
    pub to: TaskId,
}

impl DependencyId {
    /// Creates the identifier of the dependency from `from` to `to`.
    pub fn new(from: TaskId, to: TaskId) -> (r: DependencyId)
        ensures
            r.from == from,
            r.to == to,
    {
        DependencyId { from, to }
    }

    /// The task the dependency starts from.
    pub fn from(&self) -> (r: TaskId)
        ensures
            r == self.from,
    {
        self.from
    }

    /// The task the dependency leads to.
    pub fn to(&self) -> (r: TaskId)
        ensures
            r == self.to,
    {
        self.to
    }
}

} // verus!
