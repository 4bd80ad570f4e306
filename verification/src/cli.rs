//! The command line: the commands, and the checks made before running one.

use vstd::prelude::*;

verus! {

/// The parsed command line.
pub struct Cli {
    /// Verbose output (debug-level).
    pub verbose: bool,
    /// Suppress all non-error output.
    pub quiet: bool,
    pub command: Commands,
}

/// The commands, each naming the repository it works on.
pub enum Commands {
    Init { repo: String },
    Open { repo: String },
    Backup { path: String, repo: String },
    Snapshots { repo: String },
    Restore { snapshot: String, repo: String, target: String },
    Check { repo: String },
}

/// Why a command line is refused.
#[derive(Clone, Copy, Debug, PartialEq, Eq)]
pub enum CliError {
    /// `-` was given as the repository path.
    DashRepoPath,
}

/// The repository a command works on.
pub open spec fn command_repo(c: Commands) -> String {
    match c {
        Commands::Init { repo } => repo,
        Commands::Open { repo } => repo,
        Commands::Backup { repo, .. } => repo,
        Commands::Snapshots { repo } => repo,
        Commands::Restore { repo, .. } => repo,
        Commands::Check { repo } => repo,
    }
}

impl Commands {
    /// The repository this command works on.
    pub fn repo(&self) -> (r: &String)
        ensures
            *r == command_repo(*self),
    {
        match self {
            Commands::Init { repo } => repo,
            Commands::Open { repo } => repo,
            Commands::Backup { repo, .. } => repo,
            Commands::Snapshots { repo } => repo,
            Commands::Restore { repo, .. } => repo,
            Commands::Check { repo } => repo,
        }
    }

    /// Whether this command writes to the repository, and so must hold its
    /// single-writer lock while it runs.
    pub fn writes(&self) -> (w: bool)
        ensures
            w <==> (*self is Backup),
    {
        match self {
            Commands::Backup { .. } => true,
            _ => false,
        }
    }
}

/// Refuses `-` as a repository path (use `.` for the current directory).
pub fn validate_repo_path(path: &str) -> (r: Result<(), CliError>)
    ensures
        r is Err <==> path@ == "-"@,
        r matches Err(e) ==> e == CliError::DashRepoPath,
{
    let p = path.to_owned();
    let dash = "-".to_owned();
    if p == dash {
        Err(CliError::DashRepoPath)
    } else {
        Ok(())
    }
}

/// Checks a command before it runs: its repository path must be acceptable.
pub fn validate_command(command: &Commands) -> (r: Result<(), CliError>)
    ensures
        r is Err <==> command_repo(*command)@ == "-"@,
        r matches Err(e) ==> e == CliError::DashRepoPath,
{
    validate_repo_path(command.repo().as_str())
}

} // verus!
