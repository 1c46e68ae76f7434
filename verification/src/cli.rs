//! What a run was asked to do, read from its first argument, and how a finished run is
//! summed up.
use vstd::prelude::*;

verus! {

/// What the first command-line argument asks for.
#[derive(Debug, Clone, PartialEq, Eq)]
pub enum Command {
    /// No argument: generate the configured ring of chunks.
    Generate,
    AccuracyTest,
    ParallelTest,
    StorageTest,
    RadiusTest,
    /// Every test, one after the other.
    AllTests,
    Help,
    /// An argument that names no command.
    Unknown(String),
}

/// The command that `arg` names.
pub open spec fn command_of(arg: Option<Seq<char>>) -> Command {
    match arg {
        None => Command::Generate,
        Some(a) => if a == "accuracy_test"@ {
            Command::AccuracyTest
        } else if a == "parallel_test"@ {
            Command::ParallelTest
        } else if a == "storage_test"@ {
            Command::StorageTest
        } else if a == "radius_test"@ {
            Command::RadiusTest
        } else if a == "test"@ {
            Command::AllTests
        } else if a == "help"@ || a == "--help"@ || a == "-h"@ {
            Command::Help
        } else {
            Command::Unknown(arbitrary())
        },
    }
}

/// The command that the first argument `arg` names, if there is one.
pub fn parse_command(arg: Option<&str>) -> (c: Command)
    ensures
        match arg {
            Some(a) => match command_of(Some(a@)) {
                Command::Unknown(_) => c matches Command::Unknown(s) && s@ == a@,
                other => c == other,
            },
            None => c == Command::Generate,
        },
{
    match arg {
        None => Command::Generate,
        Some(a) => {
            let s = a.to_owned();
            if s == "accuracy_test".to_owned() {
                Command::AccuracyTest
            } else if s == "parallel_test".to_owned() {
                Command::ParallelTest
            } else if s == "storage_test".to_owned() {
                Command::StorageTest
            } else if s == "radius_test".to_owned() {
                Command::RadiusTest
            } else if s == "test".to_owned() {
                Command::AllTests
            } else if s == "help".to_owned() || s == "--help".to_owned() || s == "-h".to_owned() {
                Command::Help
            } else {
                Command::Unknown(s)
            }
        },
    }
}

/// How a run over batches ended, as reported to the user.
#[derive(Debug, Clone, Copy, PartialEq, Eq, Structural)]
pub enum RunSummary {
    /// A shutdown stopped the run after `processed` chunks; a later run resumes at
    /// `resume_index`.
    Stopped { processed: usize, resume_index: usize },
    /// Every batch was processed.
    Completed,
    /// The batch starting at `failed_at` failed after `completed` chunks; a later run
    /// resumes at `failed_at`.
    Failed { failed_at: usize, completed: usize },
}

/// Sums up a run that started at chunk `start_index` and ended with `result` (its error
/// being the first index of the batch that failed), `current_index` being the index
/// generation had reached and `shutdown_requested` whether a shutdown was asked for.
pub fn summarize_run(
    result: Result<(), usize>,
    shutdown_requested: bool,
    current_index: usize,
    start_index: usize,
) -> (s: RunSummary)
    requires
        result is Ok && shutdown_requested ==> start_index <= current_index,
        result matches Err(f) ==> start_index <= f,
    ensures
        match result {
            Ok(_) => if shutdown_requested {
                s == RunSummary::Stopped {
                    processed: (current_index - start_index) as usize,
                    resume_index: current_index,
                }
            } else {
                s == RunSummary::Completed
            },
            Err(f) => s == RunSummary::Failed { failed_at: f, completed: (f - start_index) as usize },
        },
{
    match result {
        Ok(_) => {
            if shutdown_requested {
                RunSummary::Stopped {
                    processed: current_index - start_index,
                    resume_index: current_index,
                }
            } else {
                RunSummary::Completed
            }
        },
        Err(failed_at) => RunSummary::Failed { failed_at, completed: failed_at - start_index },
    }
}

} // verus!
