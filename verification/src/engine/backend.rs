//! Task execution backends: the layout of a task's execution root.
use vstd::prelude::*;

use crate::engine::eval::EvaluationPath;
use crate::engine::path::{join, spec_join};
use crate::engine::value::Value;
use crate::text::{decimal, spec_decimal};

verus! {

/// The result of executing a task.
#[derive(Debug)]
pub struct TaskExecutionResult {
    /// The exit code of the task's process.
    pub exit_code: i32,
    /// The task's working directory.
    pub work_dir: EvaluationPath,
    /// The value of the task's stdout file.
    pub stdout: Value,
    /// The value of the task's stderr file.
    pub stderr: Value,
}

/// The root directory of a task execution: where its working directories,
/// temporary directory, command file and output files go.
#[derive(Debug)]
pub struct TaskExecutionRoot {
    /// The path to the working directory for the execution.
    work_dir: String,
    /// The path to the temp directory for the execution.
    temp_dir: String,
    /// The path to the command file.
    command: String,
    /// The path to the stdout file.
    stdout: String,
    /// The path to the stderr file.
    stderr: String,
}

impl TaskExecutionRoot {
    /// The working directory, to which the attempt number is joined.
    pub closed spec fn spec_work_dir(&self) -> Seq<char> {
        self.work_dir@
    }

    /// The temporary directory.
    pub closed spec fn spec_temp_dir(&self) -> Seq<char> {
        self.temp_dir@
    }

    /// The command file.
    pub closed spec fn spec_command(&self) -> Seq<char> {
        self.command@
    }

    /// The stdout file.
    pub closed spec fn spec_stdout(&self) -> Seq<char> {
        self.stdout@
    }

    /// The stderr file.
    pub closed spec fn spec_stderr(&self) -> Seq<char> {
        self.stderr@
    }

    /// Lays out a task execution root at the (absolute) directory `root`.
    ///
    /// Nothing is created on disk here; the temporary directory is made by
    /// the caller that prepares the execution.
    pub fn new(root: &str) -> (r: Self)
        ensures
            r.spec_work_dir() == spec_join(root@, "work"@),
            r.spec_temp_dir() == spec_join(root@, "tmp"@),
            r.spec_command() == spec_join(root@, "command"@),
            r.spec_stdout() == spec_join(root@, "stdout"@),
            r.spec_stderr() == spec_join(root@, "stderr"@),
    {
        TaskExecutionRoot {
            work_dir: join(root, "work"),
            temp_dir: join(root, "tmp"),
            command: join(root, "command"),
            stdout: join(root, "stdout"),
            stderr: join(root, "stderr"),
        }
    }

    /// Gets the working directory for the given attempt number.
    pub fn work_dir(&self, attempt: u64) -> (r: String)
        ensures
            r@ == spec_join(self.spec_work_dir(), spec_decimal(attempt as nat)),
    {
        let a = decimal(attempt);
        join(self.work_dir.as_str(), a.as_str())
    }

    /// Gets the temporary directory path for the task's execution.
    pub fn temp_dir(&self) -> (r: &str)
        ensures
            r@ == self.spec_temp_dir(),
    {
        self.temp_dir.as_str()
    }

    /// Gets the command file path.
    pub fn command(&self) -> (r: &str)
        ensures
            r@ == self.spec_command(),
    {
        self.command.as_str()
    }

    /// Gets the stdout file path.
    pub fn stdout(&self) -> (r: &str)
        ensures
            r@ == self.spec_stdout(),
    {
        self.stdout.as_str()
    }

    /// Gets the stderr file path.
    pub fn stderr(&self) -> (r: &str)
        ensures
            r@ == self.spec_stderr(),
    {
        self.stderr.as_str()
    }
}

} // verus!
