//! Targets, the tasks that build them, and the context a task's arguments are
//! filled from.
use vstd::prelude::*;

verus! {

/// The characters of an optional string.
pub open spec fn opt_chars(o: Option<String>) -> Option<Seq<char>> {
    match o {
        Some(s) => Some(s@),
        None => None,
    }
}

fn clone_opt(o: &Option<String>) -> (r: Option<String>)
    ensures
        opt_chars(r) == opt_chars(*o),
{
    match o {
        Some(s) => Some(s.clone()),
        None => None,
    }
}

/// The whole configuration: the targets, in the order in which they were
/// written.
#[derive(Debug)]
pub struct Config {
    pub targets: Vec<Target>,
}

/// A buildable unit: its output, the tasks that produce it, where they run,
/// and what it needs first.
#[derive(Debug)]
pub struct Target {
    pub identifier: String,
    pub tasks: Vec<Task>,
    pub working_dir: Option<String>,
    pub deps: Vec<String>,
}

/// The mathematical value of a target.
pub struct TargetView {
    pub identifier: Seq<char>,
    pub tasks: Seq<TaskView>,
    pub working_dir: Option<Seq<char>>,
    pub deps: Seq<Seq<char>>,
}

impl View for Target {
    type V = TargetView;

    open spec fn view(&self) -> TargetView {
        TargetView {
            identifier: self.identifier@,
            tasks: self.tasks@.map_values(|t: Task| t@),
            working_dir: opt_chars(self.working_dir),
            deps: self.deps@.map_values(|d: String| d@),
        }
    }
}

impl Target {
    /// The directory the target's tasks run in, if one is set.
    pub fn working_dir(&self) -> (r: Option<&str>)
        ensures
            match r {
                Some(d) => self.working_dir is Some && d@ == self.working_dir->0@,
                None => self.working_dir is None,
            },
    {
        match &self.working_dir {
            Some(d) => Some(d.as_str()),
            None => None,
        }
    }
}

impl Clone for Target {
    fn clone(&self) -> (r: Self)
        ensures
            r@ == self@,
    {
        let tasks = self.tasks.clone();
        let deps = self.deps.clone();
        assert(tasks@.map_values(|t: Task| t@) =~= self.tasks@.map_values(|t: Task| t@));
        assert(deps@.map_values(|d: String| d@) =~= self.deps@.map_values(|d: String| d@));
        Target {
            identifier: self.identifier.clone(),
            tasks,
            working_dir: clone_opt(&self.working_dir),
            deps,
        }
    }
}

/// One command to run for a target, optionally in a subdirectory of the
/// target's working directory.
#[derive(Debug)]
pub struct Task {
    pub command: String,
    pub working_dir: Option<String>,
}

/// The mathematical value of a task.
pub struct TaskView {
    pub command: Seq<char>,
    pub working_dir: Option<Seq<char>>,
}

impl View for Task {
    type V = TaskView;

    open spec fn view(&self) -> TaskView {
        TaskView { command: self.command@, working_dir: opt_chars(self.working_dir) }
    }
}

impl Clone for Task {
    fn clone(&self) -> (r: Self)
        ensures
            r@ == self@,
    {
        Task { command: self.command.clone(), working_dir: clone_opt(&self.working_dir) }
    }
}

impl PartialEq for Task {
    fn eq(&self, other: &Task) -> (r: bool) {
        let same_dir = match (&self.working_dir, &other.working_dir) {
            (Some(a), Some(b)) => *a == *b,
            (None, None) => true,
            _ => false,
        };
        self.command == other.command && same_dir
    }
}

impl vstd::std_specs::cmp::PartialEqSpecImpl for Task {
    open spec fn obeys_eq_spec() -> bool {
        true
    }

    open spec fn eq_spec(&self, other: &Task) -> bool {
        self@ == other@
    }
}

impl Eq for Task {}

impl Task {
    /// The subdirectory the task runs in, if one is set.
    pub fn working_dir(&self) -> (r: Option<&str>)
        ensures
            match r {
                Some(d) => self.working_dir is Some && d@ == self.working_dir->0@,
                None => self.working_dir is None,
            },
    {
        match &self.working_dir {
            Some(d) => Some(d.as_str()),
            None => None,
        }
    }
}

/// What a task's arguments may refer to by name.
#[derive(Debug)]
pub struct TaskContext {
    pub target_filename: String,
}

impl Clone for TaskContext {
    fn clone(&self) -> (r: Self)
        ensures
            r.target_filename@ == self.target_filename@,
    {
        TaskContext { target_filename: self.target_filename.clone() }
    }
}

} // verus!
